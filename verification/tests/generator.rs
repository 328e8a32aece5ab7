use source_map::from_source_map;
use source_map::relative;
use source_map::remove_dup;
use source_map::Mapping;
use source_map::MappingList;
use source_map::SourceMapGenerator;
use source_map::SrcMap;
use source_map::SrcMapError;
use source_map::StringPtr;
use std::rc::Rc;

fn mapping(
    gen: (usize, usize),
    source: Option<&str>,
    original: Option<(usize, usize)>,
    name: Option<&str>,
) -> Mapping {
    Mapping {
        generated: gen,
        source: source.map(|s| Rc::new(String::from(s))),
        original,
        name: name.map(|s| Rc::new(String::from(s))),
    }
}

#[test]
fn string_ptr_get_and_to_ptr() {
    let a = StringPtr::Str(String::from("alpha"));
    assert_eq!(a.get(), "alpha");
    let p = StringPtr::Ptr(Rc::new(String::from("beta")));
    assert_eq!(p.get(), "beta");
    assert_eq!(*a.to_ptr(), "alpha");
    assert_eq!(*p.to_ptr(), "beta");
}

#[test]
fn relative_rule() {
    assert_eq!(relative("/the/root", "/the/root/one.js"), "one.js");
    assert_eq!(relative("/the/root/", "/the/root/one.js"), "one.js");
    assert_eq!(
        relative("/the/root", "/another/root/one.js"),
        "/another/root/one.js"
    );
    assert_eq!(relative("/the/root", "/the/rootone.js"), "/the/rootone.js");
    assert_eq!(relative("", "/one.js"), "one.js");
}

#[test]
fn validation_rejects_bad_shapes() {
    let mut g = SourceMapGenerator::new(None, None, false);
    // original present but source absent
    let r = g.add_mapping(mapping((1, 0), None, Some((1, 0)), None));
    assert_eq!(r, Err(SrcMapError::InvalidMapping));
    // original absent but name present
    let r = g.add_mapping(mapping((1, 0), None, None, Some("n")));
    assert_eq!(r, Err(SrcMapError::InvalidMapping));
    // original absent but source present
    let r = g.add_mapping(mapping((1, 0), Some("a.js"), None, None));
    assert_eq!(r, Err(SrcMapError::InvalidMapping));
    // generated line 0
    let r = g.add_mapping(mapping((0, 0), None, None, None));
    assert_eq!(r, Err(SrcMapError::InvalidMapping));
    // original line 0
    let r = g.add_mapping(mapping((1, 0), Some("a.js"), Some((0, 0)), None));
    assert_eq!(r, Err(SrcMapError::InvalidMapping));
    // rejected mappings left no trace
    let m = g.to_source_map();
    assert_eq!(m.mappings, "");
    assert!(m.sources.is_empty());
    assert!(m.names.is_empty());
    // well-formed shapes pass
    let mut g = SourceMapGenerator::new(None, None, false);
    assert_eq!(g.add_mapping(mapping((1, 0), None, None, None)), Ok(()));
    assert_eq!(
        g.add_mapping(mapping((1, 4), Some("a.js"), Some((1, 0)), Some("n"))),
        Ok(())
    );
}

#[test]
fn skip_validation_accepts_odd_shapes() {
    let mut g = SourceMapGenerator::new(None, None, true);
    assert_eq!(g.add_mapping(mapping((1, 0), None, None, Some("n"))), Ok(()));
}

#[test]
fn index_stability() {
    let mut g = SourceMapGenerator::new(None, None, false);
    g.add_mapping(mapping((1, 0), Some("a.js"), Some((1, 0)), Some("x")))
        .unwrap();
    g.add_mapping(mapping((1, 1), Some("b.js"), Some((1, 0)), Some("y")))
        .unwrap();
    g.add_mapping(mapping((1, 2), Some("a.js"), Some((2, 0)), Some("z")))
        .unwrap();
    g.add_mapping(mapping((1, 3), Some("c.js"), Some((1, 0)), Some("x")))
        .unwrap();
    let m = g.to_source_map();
    // indices are insertion ranks; repeats kept their first index
    assert_eq!(m.sources, ["a.js", "b.js", "c.js"]);
    assert_eq!(m.names, ["x", "y", "z"]);
    assert_eq!(m.version, 3);
}

#[test]
fn sort_orders_the_list() {
    let mut l = MappingList::new();
    l.add(mapping((2, 0), Some("b.js"), Some((1, 0)), None));
    l.add(mapping((1, 5), Some("a.js"), Some((1, 0)), None));
    l.add(mapping((1, 5), None, None, None));
    l.add(mapping((1, 0), Some("a.js"), Some((2, 0)), None));
    l.add(mapping((1, 0), Some("a.js"), Some((1, 0)), None));
    l.sort();
    let gens: Vec<(usize, usize)> = l.list.iter().map(|m| m.generated).collect();
    assert_eq!(gens, [(1, 0), (1, 0), (1, 5), (1, 5), (2, 0)]);
    // equal generated positions: original positions ascending
    assert_eq!(l.list[0].original, Some((1, 0)));
    assert_eq!(l.list[1].original, Some((2, 0)));
    // equal generated positions: an absent source sorts after a present one
    assert!(l.list[2].source.is_some());
    assert!(l.list[3].source.is_none());
}

#[test]
fn absent_original_sorts_before_present() {
    // with equal generated position and equal (absent) source, the mapping
    // without an original position comes first
    let mut l = MappingList::new();
    l.add(mapping((1, 0), None, Some((3, 3)), None));
    l.add(mapping((1, 0), None, None, None));
    l.sort();
    assert_eq!(l.list[0].original, None);
    assert_eq!(l.list[1].original, Some((3, 3)));
}

#[test]
fn deterministic_encoding() {
    let build = || {
        let mut g = SourceMapGenerator::new(Some(StringPtr::Str(String::from("out.js"))), None, false);
        g.add_mapping(mapping((2, 4), Some("a.js"), Some((1, 2)), Some("f")))
            .unwrap();
        g.add_mapping(mapping((1, 0), Some("b.js"), Some((7, 0)), None))
            .unwrap();
        g.to_source_map()
    };
    let m1 = build();
    let m2 = build();
    assert_eq!(m1.mappings, m2.mappings);
    assert_eq!(m1, m2);
}

#[test]
fn content_filter_never_outgrows_sources() {
    let mut g = SourceMapGenerator::new(None, None, false);
    g.add_mapping(mapping((1, 0), Some("a.js"), Some((1, 0)), None))
        .unwrap();
    g.add_mapping(mapping((1, 1), Some("b.js"), Some((1, 0)), None))
        .unwrap();
    g.set_source_content(
        StringPtr::Str(String::from("b.js")),
        Some(StringPtr::Str(String::from("bee"))),
    );
    let m = g.to_source_map();
    assert_eq!(m.sources.len(), 2);
    assert_eq!(m.sources_content, ["bee"]);
    assert!(m.sources_content.len() <= m.sources.len());
}

#[test]
fn first_content_wins_and_none_removes() {
    let mut g = SourceMapGenerator::new(None, None, false);
    g.add_mapping(mapping((1, 0), Some("a.js"), Some((1, 0)), None))
        .unwrap();
    g.set_source_content(
        StringPtr::Str(String::from("a.js")),
        Some(StringPtr::Str(String::from("first"))),
    );
    g.set_source_content(
        StringPtr::Str(String::from("a.js")),
        Some(StringPtr::Str(String::from("second"))),
    );
    let m = g.to_source_map();
    assert_eq!(m.sources_content, ["first"]);
    g.set_source_content(StringPtr::Str(String::from("a.js")), None);
    let m = g.to_source_map();
    assert!(m.sources_content.is_empty());
}

#[test]
fn remove_dup_keeps_first_occurrences() {
    let v = vec![
        String::from("a"),
        String::from("b"),
        String::from("a"),
        String::from("c"),
        String::from("b"),
    ];
    let r = remove_dup(v);
    let r: Vec<&str> = r.iter().map(|p| p.as_str()).collect();
    assert_eq!(r, ["a", "b", "c"]);
}

fn sample_map(mappings: &str, sources: &[&str], contents: &[&str], names: &[&str]) -> SrcMap {
    SrcMap {
        version: 3,
        file: None,
        source_root: None,
        sources: sources.iter().map(|s| String::from(*s)).collect(),
        sources_content: contents.iter().map(|s| String::from(*s)).collect(),
        names: names.iter().map(|s| String::from(*s)).collect(),
        mappings: String::from(mappings),
    }
}

#[test]
fn reader_replays_segments() {
    let map = sample_map(";;AACA;AACA", &["a.js"], &["content"], &[]);
    let g = from_source_map(map, false).unwrap();
    assert_eq!(g.mappings.list.len(), 2);
    assert_eq!(g.mappings.list[0].generated, (2, 0));
    assert_eq!(g.mappings.list[0].original, Some((1, 0)));
    assert_eq!(*g.mappings.list[0].source.as_ref().unwrap().as_str(), *"a.js");
    assert_eq!(g.mappings.list[1].generated, (3, 0));
    assert_eq!(g.mappings.list[1].original, Some((2, 0)));
}

#[test]
fn reader_round_trip() {
    let map = sample_map(";;AACA;AACA", &["a.js"], &["content"], &[]);
    let mut g = from_source_map(map, false).unwrap();
    let m2 = g.to_source_map();
    // re-serializing shifts both line bases down by one: the in-memory
    // values were read 0-based off the wire but are emitted as 1-based
    assert_eq!(m2.mappings, ";AAAA;AACA");
    assert_eq!(m2.sources, ["a.js"]);
    assert_eq!(m2.sources_content, ["content"]);
    // reading the re-serialized map yields the same mappings, each line
    // lowered by exactly that one-line shift
    let g1 = from_source_map(
        sample_map(";;AACA;AACA", &["a.js"], &["content"], &[]),
        false,
    )
    .unwrap();
    let g2 = from_source_map(m2, false).unwrap();
    assert_eq!(g2.mappings.list.len(), g1.mappings.list.len());
    for (a, b) in g1.mappings.list.iter().zip(g2.mappings.list.iter()) {
        assert_eq!(b.generated.0 + 1, a.generated.0);
        assert_eq!(b.generated.1, a.generated.1);
        assert_eq!(b.original.unwrap().0 + 1, a.original.unwrap().0);
        assert_eq!(b.original.unwrap().1, a.original.unwrap().1);
        assert_eq!(a.source, b.source);
        assert_eq!(a.name, b.name);
    }
}

#[test]
fn reader_rejects_garbage() {
    let map = sample_map("!!!", &["a.js"], &[], &[]);
    assert_eq!(
        from_source_map(map, false).unwrap_err(),
        SrcMapError::MalformedInput
    );
}

#[test]
fn reader_rejects_out_of_range_indices() {
    // the single segment names source 0, but there are no sources
    let map = sample_map(";AACA", &[], &[], &[]);
    assert_eq!(
        from_source_map(map, false).unwrap_err(),
        SrcMapError::MalformedInput
    );
}

#[test]
fn reader_check_dup_filters_sources() {
    // two wire segments name sources 0 and 1; with duplicates filtered only
    // one handle remains, so index 1 is out of range
    let map = sample_map(";AACA,CCCA", &["a.js", "a.js"], &[], &[]);
    let g = from_source_map(sample_map(";AACA,CCCA", &["a.js", "a.js"], &[], &[]), false);
    assert!(g.is_ok());
    assert_eq!(
        from_source_map(map, true).unwrap_err(),
        SrcMapError::MalformedInput
    );
}
