use vstd::prelude::*;
use vstd::map::*;
use std::rc::Rc;
use crate::{StringPtr, SrcMapError, rc_string_clone};
use crate::mapping::{Mapping, MappingV};
use crate::source_map::{SrcMap, str_views, opt_string_view};
use crate::source_map_generator::{
    SourceMapGenerator, intern_spec, assoc_get, relative_spec, rc_str_views, distinct_strs,
};

verus! {

/// One parsed segment of a `mappings` string, with absolute values: the
/// generated position, and, where present, source index, original position
/// and name index, all 0-based as on the wire.
#[derive(Clone, Copy, Debug, PartialEq, Eq, Structural)]
pub struct ParsedOriginal {
    pub source: u32,
    pub original_line: u32,
    pub original_column: u32,
    pub name: Option<u32>,
}

#[derive(Clone, Copy, Debug, PartialEq, Eq, Structural)]
pub struct ParsedSegment {
    pub generated_line: u32,
    pub generated_column: u32,
    pub original: Option<ParsedOriginal>,
}

/// What parsing a `mappings` string yields: `None` where the string is
/// malformed, else the segments in by-generated-location order.
pub uninterp spec fn wire_parse(s: Seq<char>) -> Option<Seq<ParsedSegment>>;

/// Relies on `source_map_mappings::parse_mappings`: the parse is a function
/// of the input bytes alone, and `by_generated_location` returns the parsed
/// segments ordered by generated position.
#[verifier::external_body]
fn parse_wire_mappings(s: &str) -> (r: Option<Vec<ParsedSegment>>)
    ensures
        (r is Some) == (wire_parse(s@) is Some),
        (match r {
            Some(v) => Some(v@) == wire_parse(s@),
            None => true,
        }),
{
    let parsed: source_map_mappings::Mappings<()> =
        match source_map_mappings::parse_mappings(s.as_bytes()) {
            Ok(m) => m,
            Err(_) => return None,
        };
    Some(parsed.by_generated_location().iter().map(|m| ParsedSegment {
        generated_line: m.generated_line,
        generated_column: m.generated_column,
        original: m.original.as_ref().map(|o| ParsedOriginal {
            source: o.source, original_line: o.original_line,
            original_column: o.original_column, name: o.name,
        }),
    }).collect())
}

/// First-occurrence deduplication of a string list.
pub open spec fn dedup_spec(s: Seq<Seq<char>>) -> Seq<Seq<char>>
    decreases s.len(),
{
    if s.len() == 0 {
        Seq::empty()
    } else {
        let rest = dedup_spec(s.drop_last());
        if rest.contains(s.last()) {
            rest
        } else {
            rest.push(s.last())
        }
    }
}

/// Does the handle list already hold this string?
fn contains_rc(out: &Vec<Rc<String>>, s: &Rc<String>) -> (r: bool)
    ensures
        r == rc_str_views(out@).contains(s@),
{
    let mut j: usize = 0;
    while j < out.len()
        invariant
            j <= out@.len(),
            forall|q: int| 0 <= q < j ==> rc_str_views(out@)[q] != s@,
        decreases out@.len() - j,
    {
        if crate::rc_string_borrow(&out[j]).eq(crate::rc_string_borrow(s)) {
            proof {
                assert(rc_str_views(out@)[j as int] == s@);
                assert(rc_str_views(out@).contains(s@));
            }
            return true;
        }
        proof {
            assert(rc_str_views(out@)[j as int] == out@[j as int]@);
        }
        j += 1;
    }
    false
}

/// Shares each string and drops every repeated occurrence, keeping first
/// occurrences in order.
pub fn remove_dup(vec: Vec<String>) -> (r: Vec<Rc<String>>)
    ensures
        rc_str_views(r@) == dedup_spec(str_views(vec@)),
        distinct_strs(rc_str_views(r@)),
{
    let mut out: Vec<Rc<String>> = Vec::new();
    let mut i: usize = 0;
    proof {
        assert(str_views(vec@).take(0) =~= Seq::<Seq<char>>::empty());
        assert(rc_str_views(out@) =~= dedup_spec(str_views(vec@).take(0)));
    }
    while i < vec.len()
        invariant
            i <= vec@.len(),
            rc_str_views(out@) == dedup_spec(str_views(vec@).take(i as int)),
            distinct_strs(rc_str_views(out@)),
        decreases vec@.len() - i,
    {
        let s = Rc::new(vec[i].clone());
        let ghost prev = rc_str_views(out@);
        let dup = contains_rc(&out, &s);
        proof {
            assert(str_views(vec@).take(i + 1).drop_last() =~= str_views(vec@).take(i as int));
            assert(str_views(vec@).take(i + 1).last() == s@);
        }
        if !dup {
            out.push(s);
            proof {
                assert(rc_str_views(out@) =~= prev.push(str_views(vec@)[i as int]));
                assert forall|a: int, b: int|
                    0 <= a < b < rc_str_views(out@).len() implies rc_str_views(out@)[a]
                    != rc_str_views(out@)[b] by {
                    if b < prev.len() {
                        assert(prev[a] != prev[b]);
                    } else {
                        assert(rc_str_views(out@)[b] == str_views(vec@)[i as int]);
                        if prev[a] == str_views(vec@)[i as int] {
                            assert(prev.contains(str_views(vec@)[i as int]));
                        }
                    }
                }
            }
        }
        i += 1;
    }
    proof {
        assert(str_views(vec@).take(vec@.len() as int) =~= str_views(vec@));
    }
    out
}

/// The mapping a parsed segment stands for, its indices resolved against the
/// source and name handle lists.
pub open spec fn seg_mapping(
    seg: ParsedSegment,
    srcs: Seq<Seq<char>>,
    nms: Seq<Seq<char>>,
) -> MappingV {
    MappingV {
        generated: (seg.generated_line as int, seg.generated_column as int),
        source: match seg.original {
            Some(o) => Some(srcs[o.source as int]),
            None => None,
        },
        name: match seg.original {
            Some(o) => match o.name {
                Some(n) => Some(nms[n as int]),
                None => None,
            },
            None => None,
        },
        original: match seg.original {
            Some(o) => Some((o.original_line as int, o.original_column as int)),
            None => None,
        },
    }
}

pub open spec fn seg_mappings(
    v: Seq<ParsedSegment>,
    srcs: Seq<Seq<char>>,
    nms: Seq<Seq<char>>,
) -> Seq<MappingV> {
    v.map_values(|s: ParsedSegment| seg_mapping(s, srcs, nms))
}

/// A segment's indices stay inside the handle lists.
pub open spec fn seg_ok(seg: ParsedSegment, nsources: int, nnames: int) -> bool {
    match seg.original {
        Some(o) => o.source < nsources && (match o.name {
            Some(n) => n < nnames,
            None => true,
        }),
        None => true,
    }
}

pub open spec fn segs_ok(v: Seq<ParsedSegment>, nsources: int, nnames: int) -> bool {
    forall|i: int| 0 <= i < v.len() ==> seg_ok(#[trigger] v[i], nsources, nnames)
}

/// The source table that replaying a mapping list builds, by interning each
/// mapping's source in order.
pub open spec fn intern_sources_from(ms: Seq<MappingV>, i: int, t: Seq<Seq<char>>) -> Seq<
    Seq<char>,
>
    decreases ms.len() - i,
{
    if i < 0 || i >= ms.len() {
        t
    } else {
        intern_sources_from(
            ms,
            i + 1,
            match ms[i].source {
                Some(s) => intern_spec(t, s),
                None => t,
            },
        )
    }
}

pub open spec fn intern_names_from(ms: Seq<MappingV>, i: int, t: Seq<Seq<char>>) -> Seq<Seq<char>>
    decreases ms.len() - i,
{
    if i < 0 || i >= ms.len() {
        t
    } else {
        intern_names_from(
            ms,
            i + 1,
            match ms[i].name {
                Some(n) => intern_spec(t, n),
                None => t,
            },
        )
    }
}

/// The contents table after replaying `set_source_content` for each source in
/// order: position `i` gets the content at `i`, inserted only if its source
/// has none yet; a source beyond the contents list removes any entry.
pub open spec fn replay_contents_from(
    srcs: Seq<Seq<char>>,
    cnts: Seq<Seq<char>>,
    root: Option<Seq<char>>,
    i: int,
    acc: Map<Seq<char>, Seq<char>>,
) -> Map<Seq<char>, Seq<char>>
    decreases srcs.len() - i,
{
    if i < 0 || i >= srcs.len() {
        acc
    } else {
        let key = match root {
            Some(r) => relative_spec(r, srcs[i]),
            None => srcs[i],
        };
        let acc2 = if i < cnts.len() {
            if acc.dom().contains(key) {
                acc
            } else {
                acc.insert(key, cnts[i])
            }
        } else {
            acc.remove(key)
        };
        replay_contents_from(srcs, cnts, root, i + 1, acc2)
    }
}

/// An association list read as a map.
pub open spec fn assoc_map(s: Seq<(Seq<char>, Seq<char>)>) -> Map<Seq<char>, Seq<char>> {
    Map::new(|k: Seq<char>| assoc_get(s, k) is Some, |k: Seq<char>| assoc_get(s, k)->0)
}

/// Replays a parsed source map into a fresh, validation-free generator: the
/// envelope header is copied, each source's content is recorded, and every
/// parsed segment becomes a mapping whose source and name handles come from
/// the (optionally deduplicated) input lists. A `mappings` string that does
/// not parse, or a segment whose source or name index falls outside those
/// lists, is reported as malformed, if and only if.
pub fn from_source_map(map: SrcMap, check_dup: bool) -> (r: Result<
    SourceMapGenerator,
    SrcMapError,
>)
    ensures
        ({
            let srcs = if check_dup {
                dedup_spec(str_views(map.sources@))
            } else {
                str_views(map.sources@)
            };
            let nms = if check_dup {
                dedup_spec(str_views(map.names@))
            } else {
                str_views(map.names@)
            };
            &&& (r is Ok <==> (wire_parse(map.mappings@) matches Some(v) && segs_ok(
                v,
                srcs.len() as int,
                nms.len() as int,
            )))
            &&& (r is Err ==> r == Err::<SourceMapGenerator, SrcMapError>(
                SrcMapError::MalformedInput,
            ))
            &&& (match r {
                Ok(g) => {
                    let v = wire_parse(map.mappings@)->0;
                    let ms = seg_mappings(v, srcs, nms);
                    &&& g.wf()
                    &&& g.skip_validation
                    &&& g.spec_file() == opt_string_view(&map.file)
                    &&& g.spec_source_root() == opt_string_view(&map.source_root)
                    &&& g.spec_mappings() == ms
                    &&& g.spec_sources() == intern_sources_from(ms, 0, Seq::empty())
                    &&& g.spec_names() == intern_names_from(ms, 0, Seq::empty())
                    &&& assoc_map(g.spec_contents()) == replay_contents_from(
                        str_views(map.sources@),
                        str_views(map.sources_content@),
                        opt_string_view(&map.source_root),
                        0,
                        Map::empty(),
                    )
                },
                Err(_) => true,
            })
        }),
{
    let ghost rootv = opt_string_view(&map.source_root);
    let file = match map.file {
        Some(s) => Some(StringPtr::Str(s)),
        None => None,
    };
    let source_root = match map.source_root {
        Some(s) => Some(StringPtr::Str(s)),
        None => None,
    };
    let mut generator = SourceMapGenerator::new(file, source_root, true);
    let ghost srcs_all = str_views(map.sources@);
    let ghost cnts_all = str_views(map.sources_content@);
    let mut i: usize = 0;
    proof {
        assert(assoc_map(generator.spec_contents()) =~= Map::<Seq<char>, Seq<char>>::empty());
    }
    while i < map.sources.len()
        invariant
            i <= map.sources@.len(),
            generator.wf(),
            generator.skip_validation,
            generator.spec_file() == opt_string_view(&map.file),
            generator.spec_source_root() == rootv,
            generator.spec_mappings().len() == 0,
            generator.spec_sources().len() == 0,
            generator.spec_names().len() == 0,
            srcs_all == str_views(map.sources@),
            cnts_all == str_views(map.sources_content@),
            replay_contents_from(srcs_all, cnts_all, rootv, i as int, assoc_map(
                generator.spec_contents(),
            )) == replay_contents_from(srcs_all, cnts_all, rootv, 0, Map::empty()),
        decreases map.sources@.len() - i,
    {
        let ghost pre = generator.spec_contents();
        let s_rc = Rc::new(map.sources[i].clone());
        let content = if i < map.sources_content.len() {
            Some(StringPtr::Str(map.sources_content[i].clone()))
        } else {
            None
        };
        generator.set_source_content(StringPtr::Ptr(s_rc), content);
        proof {
            let key = match rootv {
                Some(rt) => relative_spec(rt, srcs_all[i as int]),
                None => srcs_all[i as int],
            };
            let post = generator.spec_contents();
            if i < map.sources_content@.len() {
                if assoc_get(pre, key) is Some {
                    assert(assoc_map(post) =~= assoc_map(pre));
                } else {
                    assert(assoc_map(post) =~= assoc_map(pre).insert(key, cnts_all[i as int]));
                }
            } else {
                assert forall|k: Seq<char>| true implies #[trigger] assoc_get(post, k)
                    == (if k == key {
                    None::<Seq<char>>
                } else {
                    assoc_get(pre, k)
                }) by {}
                assert(assoc_map(post) =~= assoc_map(pre).remove(key));
            }
        }
        i += 1;
    }
    let sources: Vec<Rc<String>> = if check_dup {
        remove_dup(map.sources)
    } else {
        to_handles(map.sources)
    };
    let names: Vec<Rc<String>> = if check_dup {
        remove_dup(map.names)
    } else {
        to_handles(map.names)
    };
    let ghost srcsv = rc_str_views(sources@);
    let ghost nmsv = rc_str_views(names@);
    let parsed = match parse_wire_mappings(map.mappings.as_str()) {
        Some(v) => v,
        None => {
            return Err(SrcMapError::MalformedInput);
        },
    };
    let ghost v = parsed@;
    let ghost allms = seg_mappings(v, srcsv, nmsv);
    proof {
        assert(generator.spec_sources() =~= Seq::<Seq<char>>::empty());
        assert(generator.spec_names() =~= Seq::<Seq<char>>::empty());
        assert(generator.spec_mappings() =~= Seq::<MappingV>::empty());
        assert(generator.spec_mappings() =~= allms.take(0));
    }
    let n = parsed.len();
    let mut j: usize = 0;
    while j < n
        invariant
            n == parsed@.len(),
            j <= n,
            v == parsed@,
            Some(v) == wire_parse(map.mappings@),
            srcsv == rc_str_views(sources@),
            nmsv == rc_str_views(names@),
            srcsv == (if check_dup {
                dedup_spec(str_views(map.sources@))
            } else {
                str_views(map.sources@)
            }),
            nmsv == (if check_dup {
                dedup_spec(str_views(map.names@))
            } else {
                str_views(map.names@)
            }),
            allms == seg_mappings(v, srcsv, nmsv),
            generator.wf(),
            generator.skip_validation,
            generator.spec_file() == opt_string_view(&map.file),
            generator.spec_source_root() == rootv,
            generator.spec_mappings() == allms.take(j as int),
            segs_ok(v.take(j as int), srcsv.len() as int, nmsv.len() as int),
            intern_sources_from(allms, j as int, generator.spec_sources())
                == intern_sources_from(allms, 0, Seq::empty()),
            intern_names_from(allms, j as int, generator.spec_names()) == intern_names_from(
                allms,
                0,
                Seq::empty(),
            ),
            assoc_map(generator.spec_contents()) == replay_contents_from(
                srcs_all,
                cnts_all,
                rootv,
                0,
                Map::empty(),
            ),
        decreases n - j,
    {
        let seg = parsed[j];
        let (original, source, name): (
            Option<(usize, usize)>,
            Option<Rc<String>>,
            Option<Rc<String>>,
        ) = match seg.original {
            Some(o) => {
                if o.source as usize >= sources.len() {
                    proof {
                        assert(!seg_ok(v[j as int], srcsv.len() as int, nmsv.len() as int));
                        assert(!segs_ok(v, srcsv.len() as int, nmsv.len() as int));
                    }
                    return Err(SrcMapError::MalformedInput);
                }
                let name = match o.name {
                    Some(ni) => {
                        if ni as usize >= names.len() {
                            proof {
                                assert(!seg_ok(v[j as int], srcsv.len() as int, nmsv.len() as int));
                                assert(!segs_ok(v, srcsv.len() as int, nmsv.len() as int));
                            }
                            return Err(SrcMapError::MalformedInput);
                        }
                        Some(rc_string_clone(&names[ni as usize]))
                    },
                    None => None,
                };
                (
                    Some((o.original_line as usize, o.original_column as usize)),
                    Some(rc_string_clone(&sources[o.source as usize])),
                    name,
                )
            },
            None => (None, None, None),
        };
        let m = Mapping {
            generated: (seg.generated_line as usize, seg.generated_column as usize),
            original,
            source,
            name,
        };
        proof {
            assert(m@ == seg_mapping(v[j as int], srcsv, nmsv));
            assert(m@ == allms[j as int]);
        }
        let _res = generator.add_mapping(m);
        proof {
            assert(generator.spec_mappings() =~= allms.take(j + 1));
            assert(v.take(j + 1) =~= v.take(j as int).push(v[j as int]));
            assert forall|q: int|
                0 <= q < v.take(j + 1).len() implies seg_ok(
                #[trigger] v.take(j + 1)[q],
                srcsv.len() as int,
                nmsv.len() as int,
            ) by {
                if q < j {
                    assert(v.take(j as int)[q] == v.take(j + 1)[q]);
                    assert(seg_ok(v.take(j as int)[q], srcsv.len() as int, nmsv.len() as int));
                }
            }
        }
        j += 1;
    }
    proof {
        assert(allms.take(n as int) =~= allms);
        assert(v.take(n as int) =~= v);
    }
    Ok(generator)
}

/// Shares each string, keeping the list as it is.
fn to_handles(vec: Vec<String>) -> (r: Vec<Rc<String>>)
    ensures
        rc_str_views(r@) == str_views(vec@),
{
    let mut out: Vec<Rc<String>> = Vec::new();
    let mut i: usize = 0;
    proof {
        assert(rc_str_views(out@) =~= str_views(vec@).take(0));
    }
    while i < vec.len()
        invariant
            i <= vec@.len(),
            rc_str_views(out@) == str_views(vec@).take(i as int),
        decreases vec@.len() - i,
    {
        let ghost prev = rc_str_views(out@);
        out.push(Rc::new(vec[i].clone()));
        proof {
            assert(rc_str_views(out@) =~= str_views(vec@).take(i + 1)) by {
                assert(out@.len() == prev.len() + 1);
                assert forall|q: int| 0 <= q < out@.len() implies rc_str_views(out@)[q]
                    == str_views(vec@).take(i + 1)[q] by {
                    if q < i {
                        assert(rc_str_views(out@)[q] == prev[q]);
                    } else {
                        assert(rc_str_views(out@)[q] == out@[q]@);
                    }
                }
            }
        }
        i += 1;
    }
    proof {
        assert(str_views(vec@).take(vec@.len() as int) =~= str_views(vec@));
    }
    out
}

} // verus!
