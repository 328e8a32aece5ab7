use vstd::prelude::*;
use std::rc::Rc;
use crate::{StringPtr, SrcMapError, rc_string_borrow, rc_string_clone};
use crate::mapping::{Mapping, MappingV};
use crate::source_map::SrcMap;
use crate::mapping_list::{MappingList, views, mapping_order};
use crate::vlq_codec::vlq_encode_spec;
use crate::vlq_codec::vlq_encode;
use vstd::relations::sorted_by;

verus! {

/// Coordinates the encoder accepts: far below what a signed 64-bit delta can
/// carry, so every running difference the wire format needs stays in range.
pub open spec fn coord_ok(n: int) -> bool {
    0 <= n < 0x4000_0000_0000_0000
}

pub open spec fn mapping_coords_ok(m: MappingV) -> bool {
    &&& coord_ok(m.generated.0)
    &&& coord_ok(m.generated.1)
    &&& match m.original {
        Some(o) => coord_ok(o.0) && coord_ok(o.1),
        None => true,
    }
}

/// The shape a mapping must have to be accepted while validation is on:
/// either original position and source are both present, the original line is
/// positive and the generated line is positive; or original, source and name
/// are all absent and the generated line is positive.
pub open spec fn valid_mapping(m: MappingV) -> bool {
    match m.original {
        Some(o) => m.source is Some && o.0 > 0 && m.generated.0 > 0,
        None => m.source is None && m.name is None && m.generated.0 > 0,
    }
}

/// No two entries of an intern table hold the same string.
pub open spec fn distinct_strs(t: Seq<Seq<char>>) -> bool {
    forall|i: int, j: int| 0 <= i < j < t.len() ==> t[i] != t[j]
}

/// Interning appends an unseen string and leaves the table alone otherwise,
/// so an entry's index is its insertion rank for the table's whole life.
pub open spec fn intern_spec(t: Seq<Seq<char>>, s: Seq<char>) -> Seq<Seq<char>> {
    if t.contains(s) {
        t
    } else {
        t.push(s)
    }
}

/// The strings a table of shared handles holds, in order.
pub open spec fn rc_str_views(s: Seq<Rc<String>>) -> Seq<Seq<char>> {
    s.map_values(|p: Rc<String>| p@)
}

/// First-match lookup in an association list of (source, content) pairs.
pub open spec fn assoc_get(s: Seq<(Seq<char>, Seq<char>)>, k: Seq<char>) -> Option<Seq<char>>
    decreases s.len(),
{
    if s.len() == 0 {
        None
    } else if s[0].0 == k {
        Some(s[0].1)
    } else {
        assoc_get(s.drop_first(), k)
    }
}

pub open spec fn assoc_keys_distinct(s: Seq<(Seq<char>, Seq<char>)>) -> bool {
    forall|i: int, j: int| 0 <= i < j < s.len() ==> s[i].0 != s[j].0
}

proof fn lemma_assoc_get_from_index(s: Seq<(Seq<char>, Seq<char>)>, i: int)
    requires
        assoc_keys_distinct(s),
        0 <= i < s.len(),
    ensures
        assoc_get(s, s[i].0) == Some(s[i].1),
    decreases s.len(),
{
    if i > 0 {
        assert(s[0].0 != s[i].0);
        assert forall|x: int, y: int| 0 <= x < y < s.drop_first().len() implies s.drop_first()[x].0
            != s.drop_first()[y].0 by {
            assert(s.drop_first()[x] == s[x + 1]);
            assert(s.drop_first()[y] == s[y + 1]);
        }
        assert(s.drop_first()[i - 1] == s[i]);
        lemma_assoc_get_from_index(s.drop_first(), i - 1);
    }
}

proof fn lemma_assoc_get_none(s: Seq<(Seq<char>, Seq<char>)>, k: Seq<char>)
    ensures
        (assoc_get(s, k) is None) <==> (forall|i: int| 0 <= i < s.len() ==> s[i].0 != k),
    decreases s.len(),
{
    if s.len() > 0 {
        lemma_assoc_get_none(s.drop_first(), k);
        assert(forall|i: int| 0 <= i < s.drop_first().len() ==> s.drop_first()[i] == s[i + 1]);
        if s[0].0 != k && (assoc_get(s.drop_first(), k) is None) {
            assert forall|i: int| 0 <= i < s.len() implies s[i].0 != k by {
                if i > 0 {
                    assert(s[i] == s.drop_first()[i - 1]);
                }
            }
        }
    }
}

proof fn lemma_assoc_get_push(s: Seq<(Seq<char>, Seq<char>)>, k0: Seq<char>, v0: Seq<char>, k: Seq<char>)
    ensures
        assoc_get(s.push((k0, v0)), k) == (if assoc_get(s, k) is Some {
            assoc_get(s, k)
        } else if k == k0 {
            Some(v0)
        } else {
            None
        }),
    decreases s.len(),
{
    let t = s.push((k0, v0));
    if s.len() == 0 {
        assert(t.len() == 1);
        assert(t[0] == (k0, v0));
        if t[0].0 != k {
            assert(t.drop_first().len() == 0);
            assert(assoc_get(t.drop_first(), k) is None);
            assert(assoc_get(t, k) is None);
        }
    } else {
        assert(t[0] == s[0]);
        if s[0].0 != k {
            assert(t.drop_first() =~= s.drop_first().push((k0, v0)));
            lemma_assoc_get_push(s.drop_first(), k0, v0, k);
        }
    }
}

proof fn lemma_assoc_get_remove(s: Seq<(Seq<char>, Seq<char>)>, i: int, k: Seq<char>)
    requires
        assoc_keys_distinct(s),
        0 <= i < s.len(),
    ensures
        assoc_get(s.remove(i), k) == (if k == s[i].0 {
            None
        } else {
            assoc_get(s, k)
        }),
    decreases s.len(),
{
    let t = s.remove(i);
    assert forall|x: int, y: int| 0 <= x < y < s.drop_first().len() implies s.drop_first()[x].0
        != s.drop_first()[y].0 by {
        assert(s.drop_first()[x] == s[x + 1]);
        assert(s.drop_first()[y] == s[y + 1]);
    }
    if i == 0 {
        assert(t =~= s.drop_first());
        if k == s[0].0 {
            lemma_assoc_get_none(t, k);
            assert forall|j: int| 0 <= j < t.len() implies t[j].0 != k by {
                assert(t[j] == s[j + 1]);
            }
        }
    } else {
        assert(t[0] == s[0]);
        if s[0].0 != k {
            assert(t.drop_first() =~= s.drop_first().remove(i - 1));
            assert(s.drop_first()[i - 1] == s[i]);
            lemma_assoc_get_remove(s.drop_first(), i - 1, k);
        } else {
            // k == s[0].0 and i > 0, so k != s[i].0
            assert(s[0].0 != s[i].0);
        }
    }
}

/// The path-relativization rule: strip one trailing `/` from the root, and if
/// the path begins with the root followed by `/`, keep only what follows;
/// otherwise the path is returned unchanged.
pub open spec fn relative_spec(root: Seq<char>, path: Seq<char>) -> Seq<char> {
    let r = if root.len() > 0 && root[root.len() - 1] == '/' {
        root.take(root.len() - 1)
    } else {
        root
    };
    if path.len() > r.len() && path.take(r.len() as int) == r && path[r.len() as int] == '/' {
        path.skip(r.len() + 1 as int)
    } else {
        path
    }
}

/// Rewrites `path` relative to `root` as `relative_spec` describes.
pub fn relative(root: &str, path: &str) -> (r: String)
    ensures
        r@ == relative_spec(root@, path@),
{
    let rlen0 = root.unicode_len();
    let rlen = if rlen0 > 0 && root.get_char(rlen0 - 1) == '/' {
        rlen0 - 1
    } else {
        rlen0
    };
    let ghost rv = if root@.len() > 0 && root@[root@.len() - 1] == '/' {
        root@.take(root@.len() - 1)
    } else {
        root@
    };
    proof {
        assert(rv =~= root@.take(rlen as int));
    }
    let plen = path.unicode_len();
    if plen <= rlen {
        return path.to_owned();
    }
    let mut i: usize = 0;
    while i < rlen
        invariant
            i <= rlen,
            rlen <= root@.len(),
            rlen < plen,
            plen == path@.len(),
            rv == root@.take(rlen as int),
            forall|j: int| 0 <= j < i ==> path@[j] == rv[j],
        decreases rlen - i,
    {
        if path.get_char(i) != root.get_char(i) {
            proof {
                assert(path@.take(rlen as int)[i as int] != rv[i as int]);
            }
            return path.to_owned();
        }
        i += 1;
    }
    if path.get_char(rlen) != '/' {
        return path.to_owned();
    }
    proof {
        assert(path@.take(rlen as int) =~= rv);
    }
    let r = path.substring_char(rlen + 1, plen);
    proof {
        assert(path@.subrange(rlen + 1, plen as int) =~= path@.skip(rlen + 1));
    }
    r.to_owned()
}

/// The generator: interned source and name tables whose indices are
/// insertion ranks, the append-ordered mapping buffer, the source-contents
/// table, and the envelope header fields.
#[derive(Debug)]
pub struct SourceMapGenerator {
    pub file: Option<Rc<String>>,
    pub source_root: Option<Rc<String>>,
    pub skip_validation: bool,
    pub sources: Vec<Rc<String>>,
    pub names: Vec<Rc<String>>,
    pub mappings: MappingList,
    pub sources_contents: Vec<(Rc<String>, Rc<String>)>,
}

impl SourceMapGenerator {
    pub open spec fn spec_sources(&self) -> Seq<Seq<char>> {
        rc_str_views(self.sources@)
    }

    pub open spec fn spec_names(&self) -> Seq<Seq<char>> {
        rc_str_views(self.names@)
    }

    pub open spec fn spec_mappings(&self) -> Seq<MappingV> {
        crate::mapping_list::views(self.mappings.list@)
    }

    pub open spec fn spec_contents(&self) -> Seq<(Seq<char>, Seq<char>)> {
        self.sources_contents@.map_values(|e: (Rc<String>, Rc<String>)| (e.0@, e.1@))
    }

    pub open spec fn spec_file(&self) -> Option<Seq<char>> {
        match self.file {
            Some(f) => Some(f@),
            None => None,
        }
    }

    pub open spec fn spec_source_root(&self) -> Option<Seq<char>> {
        match self.source_root {
            Some(f) => Some(f@),
            None => None,
        }
    }

    /// A mapping the generator may hold: its coordinates are in range and its
    /// source and name, where present, are interned.
    pub open spec fn mapping_ok(&self, m: MappingV) -> bool {
        &&& mapping_coords_ok(m)
        &&& match m.source {
            Some(s) => self.spec_sources().contains(s),
            None => true,
        }
        &&& match m.name {
            Some(n) => self.spec_names().contains(n),
            None => true,
        }
    }

    /// The generator's invariant: intern tables and the contents table hold
    /// no duplicates, the tables never outgrow the mapping count, and every
    /// stored mapping is well-placed.
    pub open spec fn wf(&self) -> bool {
        &&& distinct_strs(self.spec_sources())
        &&& distinct_strs(self.spec_names())
        &&& assoc_keys_distinct(self.spec_contents())
        &&& self.spec_sources().len() <= self.spec_mappings().len()
        &&& self.spec_names().len() <= self.spec_mappings().len()
        &&& forall|i: int|
            0 <= i < self.spec_mappings().len() ==> #[trigger] self.mapping_ok(
                self.spec_mappings()[i],
            )
    }

    /// Everything but the contents table is unchanged.
    pub open spec fn same_but_contents(&self, pre: &SourceMapGenerator) -> bool {
        &&& self.file == pre.file
        &&& self.source_root == pre.source_root
        &&& self.skip_validation == pre.skip_validation
        &&& self.sources == pre.sources
        &&& self.names == pre.names
        &&& self.mappings.list == pre.mappings.list
    }

    /// The state after accepting a mapping: the mapping is appended, and its
    /// source and name, where present, are interned.
    pub open spec fn added_mapping(&self, pre: &SourceMapGenerator, m: MappingV) -> bool {
        &&& self.spec_sources() == (match m.source {
            Some(s) => intern_spec(pre.spec_sources(), s),
            None => pre.spec_sources(),
        })
        &&& self.spec_names() == (match m.name {
            Some(n) => intern_spec(pre.spec_names(), n),
            None => pre.spec_names(),
        })
        &&& self.spec_mappings() == pre.spec_mappings().push(m)
        &&& self.file == pre.file
        &&& self.source_root == pre.source_root
        &&& self.skip_validation == pre.skip_validation
        &&& self.spec_contents() == pre.spec_contents()
    }

    pub fn new(file: Option<StringPtr>, source_root: Option<StringPtr>, skip_validation: bool) -> (r:
        SourceMapGenerator)
        ensures
            r.wf(),
            r.spec_file() == (match file {
                Some(f) => Some(f@),
                None => None::<Seq<char>>,
            }),
            r.spec_source_root() == (match source_root {
                Some(f) => Some(f@),
                None => None::<Seq<char>>,
            }),
            r.skip_validation == skip_validation,
            r.spec_sources().len() == 0,
            r.spec_names().len() == 0,
            r.spec_mappings().len() == 0,
            r.spec_contents().len() == 0,
    {
        let file = match file {
            Some(sp) => Some(sp.to_ptr()),
            None => None,
        };
        let source_root = match source_root {
            Some(sp) => Some(sp.to_ptr()),
            None => None,
        };
        SourceMapGenerator {
            file,
            source_root,
            skip_validation,
            sources: Vec::new(),
            names: Vec::new(),
            mappings: MappingList::new(),
            sources_contents: Vec::new(),
        }
    }

    /// Normalizes the source path against the configured root, then records
    /// the content: a present content is inserted only if the source has none
    /// yet (the first content seen wins); an absent content removes the entry.
    pub fn set_source_content(&mut self, source_file: StringPtr, source_content: Option<StringPtr>)
        requires
            old(self).wf(),
        ensures
            final(self).wf(),
            final(self).same_but_contents(old(self)),
            ({
                let key = (match old(self).spec_source_root() {
                    Some(root) => relative_spec(root, source_file@),
                    None => source_file@,
                });
                let pre = old(self).spec_contents();
                let post = final(self).spec_contents();
                match source_content {
                    Some(c) => post == (if assoc_get(pre, key) is Some {
                        pre
                    } else {
                        pre.push((key, c@))
                    }) && forall|k: Seq<char>|
                        #[trigger] assoc_get(post, k) == (if k == key && assoc_get(pre, key) is None {
                            Some(c@)
                        } else {
                            assoc_get(pre, k)
                        }),
                    None => assoc_get(post, key) is None && forall|k: Seq<char>|
                        k != key ==> #[trigger] assoc_get(post, k) == assoc_get(pre, k),
                }
            }),
    {
        let file_rc = source_file.to_ptr();
        let key: Rc<String> = match &self.source_root {
            Some(root) => Rc::new(
                relative(rc_string_borrow(root).as_str(), rc_string_borrow(&file_rc).as_str()),
            ),
            None => file_rc,
        };
        let ghost pre = self.spec_contents();
        match source_content {
            Some(c) => {
                let content_rc = c.to_ptr();
                let n = self.sources_contents.len();
                let mut i: usize = 0;
                while i < n
                    invariant
                        n == self.sources_contents@.len(),
                        i <= n,
                        *self == *old(self),
                        self.wf(),
                        source_content is Some,
                        pre == self.spec_contents(),
                        key@ == (match old(self).spec_source_root() {
                            Some(root) => relative_spec(root, source_file@),
                            None => source_file@,
                        }),
                        forall|j: int| 0 <= j < i ==> pre[j].0 != key@,
                    decreases n - i,
                {
                    if rc_string_borrow(&self.sources_contents[i].0).eq(rc_string_borrow(&key)) {
                        proof {
                            assert(pre[i as int].0 == key@);
                            lemma_assoc_get_from_index(pre, i as int);
                            assert(assoc_get(pre, key@) is Some);
                            assert(self.spec_contents() == pre);
                        }
                        return;
                    }
                    proof {
                        assert(pre[i as int] == (self.sources_contents@[i as int].0@,
                        self.sources_contents@[i as int].1@));
                    }
                    i += 1;
                }
                proof {
                    lemma_assoc_get_none(pre, key@);
                }
                self.sources_contents.push((key, content_rc));
                proof {
                    assert(self.spec_contents() =~= pre.push((key@, content_rc@)));
                    assert forall|k: Seq<char>| true implies #[trigger] assoc_get(
                        self.spec_contents(),
                        k,
                    ) == (if k == key@ && assoc_get(pre, key@) is None {
                        Some(content_rc@)
                    } else {
                        assoc_get(pre, k)
                    }) by {
                        lemma_assoc_get_push(pre, key@, content_rc@, k);
                    }
                    assert forall|a: int, b: int|
                        0 <= a < b < self.spec_contents().len() implies self.spec_contents()[a].0
                        != self.spec_contents()[b].0 by {
                        if b < pre.len() {
                            assert(pre[a].0 != pre[b].0);
                        } else {
                            assert(self.spec_contents()[b].0 == key@);
                            assert(pre[a].0 != key@);
                        }
                    }
                    assert(self.spec_sources() == old(self).spec_sources());
                    assert(self.spec_names() == old(self).spec_names());
                    assert(self.spec_mappings() == old(self).spec_mappings());
                    assert forall|ix: int|
                        0 <= ix < self.spec_mappings().len() implies #[trigger] self.mapping_ok(
                        self.spec_mappings()[ix],
                    ) by {
                        assert(old(self).mapping_ok(old(self).spec_mappings()[ix]));
                    }
                }
            },
            None => {
                let n = self.sources_contents.len();
                let mut i: usize = 0;
                while i < n
                    invariant
                        n == self.sources_contents@.len(),
                        i <= n,
                        *self == *old(self),
                        self.wf(),
                        source_content is None,
                        pre == self.spec_contents(),
                        assoc_keys_distinct(pre),
                        key@ == (match old(self).spec_source_root() {
                            Some(root) => relative_spec(root, source_file@),
                            None => source_file@,
                        }),
                        forall|j: int| 0 <= j < i ==> pre[j].0 != key@,
                    decreases n - i,
                {
                    if rc_string_borrow(&self.sources_contents[i].0).eq(rc_string_borrow(&key)) {
                        proof {
                            assert(pre[i as int].0 == key@);
                        }
                        proof {
                            assert(old(self).wf());
                        }
                        self.sources_contents.remove(i);
                        proof {
                            assert(self.spec_sources() == old(self).spec_sources());
                            assert(self.spec_names() == old(self).spec_names());
                            assert(self.spec_mappings() == old(self).spec_mappings());
                            assert forall|ix: int|
                                0 <= ix < self.spec_mappings().len() implies #[trigger] self.mapping_ok(
                                self.spec_mappings()[ix],
                            ) by {
                                assert(old(self).mapping_ok(old(self).spec_mappings()[ix]));
                            }
                            assert(self.spec_contents() =~= pre.remove(i as int));
                            assert forall|k: Seq<char>| true implies #[trigger] assoc_get(
                                self.spec_contents(),
                                k,
                            ) == (if k == key@ {
                                None
                            } else {
                                assoc_get(pre, k)
                            }) by {
                                lemma_assoc_get_remove(pre, i as int, k);
                            }
                            assert forall|a: int, b: int|
                                0 <= a < b < self.spec_contents().len() implies self.spec_contents()[a].0
                                != self.spec_contents()[b].0 by {
                                let t = pre.remove(i as int);
                                let pa = if a < i { a } else { a + 1 };
                                let pb = if b < i { b } else { b + 1 };
                                assert(t[a] == pre[pa]);
                                assert(t[b] == pre[pb]);
                                assert(pre[pa].0 != pre[pb].0);
                            }
                        }
                        return;
                    }
                    proof {
                        assert(pre[i as int] == (self.sources_contents@[i as int].0@,
                        self.sources_contents@[i as int].1@));
                    }
                    i += 1;
                }
                proof {
                    lemma_assoc_get_none(pre, key@);
                }
            },
        }
    }

    /// Every stored mapping meets the encoder's demands.
    pub open spec fn serializable(&self) -> bool {
        forall|i: int|
            0 <= i < self.spec_mappings().len() ==> serializable_mapping(
                #[trigger] self.spec_mappings()[i],
            )
    }

    /// The mapping buffer has been brought into order; nothing else moved.
    pub open spec fn sorted_from(&self, pre: &SourceMapGenerator) -> bool {
        &&& self.file == pre.file
        &&& self.source_root == pre.source_root
        &&& self.skip_validation == pre.skip_validation
        &&& self.sources == pre.sources
        &&& self.names == pre.names
        &&& self.spec_contents() == pre.spec_contents()
        &&& self.spec_mappings() == pre.spec_mappings().sort_by(mapping_order())
    }

    /// Sorts the buffer, then encodes it: per segment a generated-column
    /// delta, and for source-bearing mappings the source index, 0-based
    /// original line and column, and name index, all as running deltas,
    /// with `;` per line crossed and `,` between segments of one line.
    fn serialize_mappings(&mut self) -> (r: String)
        requires
            old(self).wf(),
            old(self).serializable(),
            old(self).spec_mappings().len() < 0x4000_0000_0000_0000,
        ensures
            final(self).wf(),
            final(self).serializable(),
            final(self).sorted_from(old(self)),
            r@ == serialize_spec(
                views(old(self).mappings.list@).sort_by(mapping_order()),
                old(self).spec_sources(),
                old(self).spec_names(),
            ),
    {
        self.mappings.sort();
        proof {
            broadcast use vstd::seq_lib::group_to_multiset_ensures;
            assert forall|ix: int| 0 <= ix < self.spec_mappings().len() implies #[trigger] self.mapping_ok(
                self.spec_mappings()[ix],
            ) && serializable_mapping(self.spec_mappings()[ix]) by {
                let x = self.spec_mappings()[ix];
                assert(self.spec_mappings().contains(x));
                assert(views(old(self).mappings.list@).to_multiset().count(x) > 0);
                assert(views(old(self).mappings.list@).contains(x));
                let j = choose|j: int|
                    0 <= j < old(self).spec_mappings().len() && old(self).spec_mappings()[j] == x;
                assert(old(self).mapping_ok(old(self).spec_mappings()[j]));
                assert(serializable_mapping(old(self).spec_mappings()[j]));
            }
            assert(self.spec_mappings().to_multiset() == old(self).spec_mappings().to_multiset());
            assert(self.spec_mappings().len() == self.spec_mappings().to_multiset().len());
            assert(old(self).spec_mappings().len() == old(
                self,
            ).spec_mappings().to_multiset().len());
            assert(self.spec_mappings().len() == old(self).spec_mappings().len());
            assert(self.wf());
        }
        let ghost sorted = views(self.mappings.list@);
        let ghost srcv = self.spec_sources();
        let ghost namv = self.spec_names();
        let ghost snap = *self;
        let n = self.mappings.list.len();
        let mut result = String::new();
        let mut pgl: usize = 1;
        let mut pgc: usize = 0;
        let mut pol: usize = 0;
        let mut poc: usize = 0;
        let mut psrc: usize = 0;
        let mut pnm: usize = 0;
        let mut i: usize = 0;
        proof {
            assert(result@ =~= Seq::<char>::empty());
            assert(encode_upto(sorted, 0, srcv, namv).0 =~= Seq::<char>::empty());
        }
        while i < n
            invariant
                *self == snap,
                self.wf(),
                n == self.mappings.list@.len(),
                n < 0x4000_0000_0000_0000,
                sorted == views(self.mappings.list@),
                srcv == self.spec_sources(),
                namv == self.spec_names(),
                sorted_by(sorted, mapping_order()),
                forall|j: int|
                    0 <= j < n ==> #[trigger] self.mapping_ok(sorted[j]) && serializable_mapping(
                        sorted[j],
                    ),
                i <= n,
                result@ == encode_upto(sorted, i as int, srcv, namv).0,
                (EncState {
                    gen_line: pgl as int,
                    gen_col: pgc as int,
                    orig_line: pol as int,
                    orig_col: poc as int,
                    source: psrc as int,
                    name: pnm as int,
                }) == encode_upto(sorted, i as int, srcv, namv).1,
                pgl < 0x4000_0000_0000_0000,
                pgc < 0x4000_0000_0000_0000,
                pol < 0x4000_0000_0000_0000,
                poc < 0x4000_0000_0000_0000,
                psrc <= n,
                pnm <= n,
                i == 0 ==> pgl == 1,
                i > 0 ==> pgl as int == sorted[i - 1].generated.0,
            decreases n - i,
        {
            let ghost acc = result@;
            let ghost st = EncState {
                gen_line: pgl as int,
                gen_col: pgc as int,
                orig_line: pol as int,
                orig_col: poc as int,
                source: psrc as int,
                name: pnm as int,
            };
            let ghost step = encode_segment(sorted[i as int], i as int, st, srcv, namv);
            let m = self.mappings.list[i].clone();
            proof {
                assert(m@ == sorted[i as int]);
                assert(self.mapping_ok(sorted[i as int]));
                assert(serializable_mapping(sorted[i as int]));
                if i > 0 {
                    assert(mapping_order()(sorted[i - 1], sorted[i as int]));
                    assert(sorted[i - 1].generated.0 <= sorted[i as int].generated.0);
                }
            }
            if m.generated.0 != pgl {
                let ghost pgl0 = pgl as int;
                pgc = 0;
                let gap = m.generated.0 - pgl;
                let mut cnt: usize = 0;
                proof {
                    assert(result@ =~= acc + semis(0));
                }
                while cnt < gap
                    invariant
                        cnt <= gap,
                        result@ == acc + semis(cnt as int),
                    decreases gap - cnt,
                {
                    result.append(";");
                    proof {
                        reveal_strlit(";");
                        assert(";"@ =~= seq![';']);
                        assert(semis(cnt + 1) =~= semis(cnt as int).push(';'));
                        assert(result@ =~= acc + semis(cnt + 1));
                    }
                    cnt += 1;
                }
                pgl = m.generated.0;
                proof {
                    assert(result@ == acc + semis(m@.generated.0 - pgl0));
                }
            } else {
                if i > 0 {
                    result.append(",");
                    proof {
                        reveal_strlit(",");
                        assert(","@ =~= seq![',']);
                        assert(result@ =~= acc + seq![',']);
                    }
                }
            }
            let delta = m.generated.1 as i64 - pgc as i64;
            let piece = vlq_encode(delta);
            result.append(piece.as_str());
            pgc = m.generated.1;
            if let Some(source) = &m.source {
                let si = lookup(&self.sources, source).unwrap();
                proof {
                    lemma_idx_of(srcv, source@, si as int);
                }
                let sdelta = si as i64 - psrc as i64;
                let spiece = vlq_encode(sdelta);
                result.append(spiece.as_str());
                psrc = si;
                let o = m.original.unwrap();
                let ol_delta = (o.0 as i64 - 1) - pol as i64;
                let olpiece = vlq_encode(ol_delta);
                result.append(olpiece.as_str());
                pol = o.0 - 1;
                let oc_delta = o.1 as i64 - poc as i64;
                let ocpiece = vlq_encode(oc_delta);
                result.append(ocpiece.as_str());
                poc = o.1;
                if let Some(name) = &m.name {
                    let ni = lookup(&self.names, name).unwrap();
                    proof {
                        lemma_idx_of(namv, name@, ni as int);
                    }
                    let ndelta = ni as i64 - pnm as i64;
                    let npiece = vlq_encode(ndelta);
                    result.append(npiece.as_str());
                    pnm = ni;
                }
            }
            proof {
                assert(result@ =~= acc + step.0);
                assert((EncState {
                    gen_line: pgl as int,
                    gen_col: pgc as int,
                    orig_line: pol as int,
                    orig_col: poc as int,
                    source: psrc as int,
                    name: pnm as int,
                }) == step.1);
                assert(encode_upto(sorted, i + 1, srcv, namv).0 == acc + step.0);
                assert(encode_upto(sorted, i + 1, srcv, namv).1 == step.1);
            }
            i += 1;
        }
        proof {
            assert(i == n);
            assert(serialize_spec(sorted, srcv, namv) == encode_upto(sorted, n as int, srcv, namv).0);
            assert forall|ix: int|
                0 <= ix < self.spec_mappings().len() implies serializable_mapping(
                #[trigger] self.spec_mappings()[ix],
            ) by {
                assert(self.mapping_ok(sorted[ix]) && serializable_mapping(sorted[ix]));
            }
        }
        result
    }

    /// Builds the envelope: `version` 3, the tables in index order, the
    /// encoded `mappings` string, and one content entry per source that has
    /// one — sources without content are left out, so `sources_content`
    /// never outgrows `sources`.
    pub fn to_source_map(&mut self) -> (r: SrcMap)
        requires
            old(self).wf(),
            old(self).serializable(),
            old(self).spec_mappings().len() < 0x4000_0000_0000_0000,
        ensures
            final(self).wf(),
            final(self).serializable(),
            final(self).sorted_from(old(self)),
            r.version == 3,
            crate::source_map::opt_string_view(&r.file) == old(self).spec_file(),
            crate::source_map::opt_string_view(&r.source_root) == old(self).spec_source_root(),
            crate::source_map::str_views(r.sources@) == old(self).spec_sources(),
            crate::source_map::str_views(r.names@) == old(self).spec_names(),
            r.mappings@ == serialize_spec(
                old(self).spec_mappings().sort_by(mapping_order()),
                old(self).spec_sources(),
                old(self).spec_names(),
            ),
            crate::source_map::str_views(r.sources_content@) == contents_of(
                old(self).spec_sources(),
                old(self).spec_contents(),
            ),
            r.sources_content@.len() <= r.sources@.len(),
    {
        let version: i32 = 3;
        let mappings = self.serialize_mappings();
        let mut sources: Vec<String> = Vec::new();
        let mut i: usize = 0;
        proof {
            assert(crate::source_map::str_views(sources@) =~= self.spec_sources().take(0));
        }
        while i < self.sources.len()
            invariant
                i <= self.sources@.len(),
                crate::source_map::str_views(sources@) == self.spec_sources().take(i as int),
            decreases self.sources@.len() - i,
        {
            let ghost prev = crate::source_map::str_views(sources@);
            let c = rc_string_borrow(&self.sources[i]).clone();
            proof {
                assert(c@ == self.spec_sources()[i as int]);
            }
            sources.push(c);
            proof {
                assert(sources@.len() == prev.len() + 1);
                assert(sources@[i as int] == c);
                assert forall|j: int|
                    0 <= j < sources@.len() implies crate::source_map::str_views(sources@)[j]
                    == self.spec_sources().take(i + 1)[j] by {
                    if j < i {
                        assert(crate::source_map::str_views(sources@)[j] == prev[j]);
                    } else {
                        assert(sources@[j] == c);
                    }
                }
                assert(crate::source_map::str_views(sources@) =~= self.spec_sources().take(i + 1));
            }
            i += 1;
        }
        proof {
            assert(self.spec_sources().take(self.sources@.len() as int) =~= self.spec_sources());
        }
        let mut names: Vec<String> = Vec::new();
        let mut i: usize = 0;
        proof {
            assert(crate::source_map::str_views(names@) =~= self.spec_names().take(0));
        }
        while i < self.names.len()
            invariant
                i <= self.names@.len(),
                crate::source_map::str_views(names@) == self.spec_names().take(i as int),
            decreases self.names@.len() - i,
        {
            let ghost prev = crate::source_map::str_views(names@);
            let c = rc_string_borrow(&self.names[i]).clone();
            proof {
                assert(c@ == self.spec_names()[i as int]);
            }
            names.push(c);
            proof {
                assert(names@.len() == prev.len() + 1);
                assert(names@[i as int] == c);
                assert forall|j: int|
                    0 <= j < names@.len() implies crate::source_map::str_views(names@)[j]
                    == self.spec_names().take(i + 1)[j] by {
                    if j < i {
                        assert(crate::source_map::str_views(names@)[j] == prev[j]);
                    } else {
                        assert(names@[j] == c);
                    }
                }
                assert(crate::source_map::str_views(names@) =~= self.spec_names().take(i + 1));
            }
            i += 1;
        }
        proof {
            assert(self.spec_names().take(self.names@.len() as int) =~= self.spec_names());
        }
        let file = match &self.file {
            Some(f) => Some(rc_string_borrow(f).clone()),
            None => None,
        };
        let source_root = match &self.source_root {
            Some(f) => Some(rc_string_borrow(f).clone()),
            None => None,
        };
        let mut sources_content: Vec<String> = Vec::new();
        let mut i: usize = 0;
        proof {
            assert(crate::source_map::str_views(sources_content@) =~= contents_of(
                self.spec_sources().take(0),
                self.spec_contents(),
            ));
        }
        while i < self.sources.len()
            invariant
                self.wf(),
                i <= self.sources@.len(),
                crate::source_map::str_views(sources_content@) == contents_of(
                    self.spec_sources().take(i as int),
                    self.spec_contents(),
                ),
                sources_content@.len() <= i,
            decreases self.sources@.len() - i,
        {
            let ghost pre_taken = self.spec_sources().take(i as int);
            let found = content_for(&self.sources_contents, &self.sources[i]);
            proof {
                assert(self.spec_sources().take(i + 1).drop_last() =~= pre_taken);
                assert(self.spec_sources().take(i + 1).last() == self.spec_sources()[i as int]);
            }
            match found {
                Some(c) => {
                    sources_content.push(c);
                    proof {
                        assert(crate::source_map::str_views(sources_content@) =~= contents_of(
                            pre_taken,
                            self.spec_contents(),
                        ).push(assoc_get(self.spec_contents(), self.spec_sources()[i as int])->0));
                        assert(contents_of(self.spec_sources().take(i + 1), self.spec_contents())
                            =~= contents_of(pre_taken, self.spec_contents()).push(
                            assoc_get(self.spec_contents(), self.spec_sources()[i as int])->0,
                        ));
                    }
                },
                None => {
                    proof {
                        assert(contents_of(self.spec_sources().take(i + 1), self.spec_contents())
                            =~= contents_of(pre_taken, self.spec_contents()));
                    }
                },
            }
            i += 1;
        }
        proof {
            assert(self.spec_sources().take(self.sources@.len() as int) =~= self.spec_sources());
        }
        SrcMap { version, sources, names, mappings, file, source_root, sources_content }
    }

    fn validate_mapping(map: &Mapping) -> (r: Result<(), SrcMapError>)
        ensures
            r == (if valid_mapping(map@) {
                Ok::<(), SrcMapError>(())
            } else {
                Err::<(), SrcMapError>(SrcMapError::InvalidMapping)
            }),
    {
        if let Some(original) = map.original {
            if map.source.is_some() && original.0 > 0 && map.generated.0 > 0 {
                Ok(())
            } else {
                Err(SrcMapError::InvalidMapping)
            }
        } else {
            if map.source.is_none() && map.name.is_none() && map.generated.0 > 0 {
                Ok(())
            } else {
                Err(SrcMapError::InvalidMapping)
            }
        }
    }

    /// Validates (unless validation is off), interns the source and name, and
    /// appends the mapping. A rejected mapping leaves the generator unchanged.
    pub fn add_mapping(&mut self, map: Mapping) -> (r: Result<(), SrcMapError>)
        requires
            old(self).wf(),
            mapping_coords_ok(map@),
        ensures
            final(self).wf(),
            !old(self).skip_validation && !valid_mapping(map@) ==> r == Err::<(), SrcMapError>(
                SrcMapError::InvalidMapping,
            ) && *final(self) == *old(self),
            old(self).skip_validation || valid_mapping(map@) ==> r == Ok::<(), SrcMapError>(())
                && final(self).added_mapping(old(self), map@),
    {
        if !self.skip_validation {
            if let Err(e) = Self::validate_mapping(&map) {
                return Err(e);
            }
        }
        let ghost pre = *self;
        if let Some(source) = &map.source {
            intern(&mut self.sources, source);
        }
        if let Some(name) = &map.name {
            intern(&mut self.names, name);
        }
        proof {
            lemma_intern_preserves_contains(pre.spec_sources(), map@.source);
            lemma_intern_preserves_contains(pre.spec_names(), map@.name);
        }
        self.mappings.add(map);
        proof {
            assert(self.spec_mappings() =~= pre.spec_mappings().push(map@));
            assert forall|i: int|
                0 <= i < self.spec_mappings().len() implies #[trigger] self.mapping_ok(
                self.spec_mappings()[i],
            ) by {
                if i < pre.spec_mappings().len() {
                    assert(pre.mapping_ok(pre.spec_mappings()[i]));
                    assert(self.spec_mappings()[i] == pre.spec_mappings()[i]);
                    lemma_contains_in_extension(pre.spec_sources(), self.spec_sources(), self.spec_mappings()[i].source);
                    lemma_contains_in_extension(pre.spec_names(), self.spec_names(), self.spec_mappings()[i].name);
                } else {
                    assert(self.spec_mappings()[i] == map@);
                }
            }
        }
        Ok(())
    }
}

/// Interning leaves the table holding the string: either it was there, or it
/// is the entry just appended.
proof fn lemma_intern_preserves_contains(t: Seq<Seq<char>>, so: Option<Seq<char>>)
    ensures
        (match so {
            Some(s) => intern_spec(t, s).contains(s),
            None => true,
        }),
{
    match so {
        Some(s) => {
            if !t.contains(s) {
                assert(intern_spec(t, s)[t.len() as int] == s);
            }
        },
        None => {},
    }
}

/// A table only ever grows by appending, so membership carries over.
proof fn lemma_contains_in_extension(t: Seq<Seq<char>>, u: Seq<Seq<char>>, so: Option<Seq<char>>)
    requires
        u == t || exists|x: Seq<char>| u == t.push(x),
    ensures
        (match so {
            Some(s) => t.contains(s) ==> u.contains(s),
            None => true,
        }),
{
    match so {
        Some(s) => {
            if t.contains(s) && u != t {
                let x = choose|x: Seq<char>| u == t.push(x);
                let i = choose|i: int| 0 <= i < t.len() && t[i] == s;
                assert(u[i] == s);
            }
        },
        None => {},
    }
}

/// Appends `s` to the table unless an equal string is already interned.
fn intern(table: &mut Vec<Rc<String>>, s: &Rc<String>)
    requires
        distinct_strs(rc_str_views(old(table)@)),
    ensures
        rc_str_views(final(table)@) == intern_spec(rc_str_views(old(table)@), s@),
        distinct_strs(rc_str_views(final(table)@)),
        final(table)@.len() <= old(table)@.len() + 1,
{
    let ghost tv = rc_str_views(table@);
    let n = table.len();
    let mut i: usize = 0;
    while i < n
        invariant
            n == table@.len(),
            tv == rc_str_views(table@),
            distinct_strs(tv),
            i <= n,
            forall|j: int| 0 <= j < i ==> rc_str_views(table@)[j] != s@,
        decreases n - i,
    {
        if rc_string_borrow(&table[i]).eq(rc_string_borrow(s)) {
            proof {
                assert(rc_str_views(table@)[i as int] == s@);
                assert(rc_str_views(table@).contains(s@));
            }
            return;
        }
        proof {
            assert(rc_str_views(table@)[i as int] == table@[i as int]@);
        }
        i += 1;
    }
    proof {
        assert(!tv.contains(s@));
    }
    table.push(rc_string_clone(s));
    proof {
        assert(rc_str_views(table@) =~= tv.push(s@));
        assert forall|a: int, b: int|
            0 <= a < b < rc_str_views(table@).len() implies rc_str_views(table@)[a] != rc_str_views(
            table@,
        )[b] by {
            if b < tv.len() {
                assert(tv[a] != tv[b]);
            } else {
                assert(rc_str_views(table@)[b] == s@);
                assert(tv[a] != s@) by {
                    if tv[a] == s@ {
                        assert(tv.contains(s@));
                    }
                }
            }
        }
    }
}

/// The index at which the table holds `s`, where it does.
fn lookup(table: &Vec<Rc<String>>, s: &Rc<String>) -> (r: Option<usize>)
    ensures
        (match r {
            Some(i) => i < table@.len() && rc_str_views(table@)[i as int] == s@,
            None => !rc_str_views(table@).contains(s@),
        }),
{
    let n = table.len();
    let mut i: usize = 0;
    while i < n
        invariant
            n == table@.len(),
            i <= n,
            forall|j: int| 0 <= j < i ==> rc_str_views(table@)[j] != s@,
        decreases n - i,
    {
        if rc_string_borrow(&table[i]).eq(rc_string_borrow(s)) {
            proof {
                assert(rc_str_views(table@)[i as int] == s@);
            }
            return Some(i);
        }
        proof {
            assert(rc_str_views(table@)[i as int] == table@[i as int]@);
        }
        i += 1;
    }
    None
}

/// The contents column of the envelope: for each source, in table order,
/// its recorded content where there is one; sources without content
/// contribute nothing.
pub open spec fn contents_of(
    sources: Seq<Seq<char>>,
    contents: Seq<(Seq<char>, Seq<char>)>,
) -> Seq<Seq<char>>
    decreases sources.len(),
{
    if sources.len() == 0 {
        Seq::empty()
    } else {
        let rest = contents_of(sources.drop_last(), contents);
        match assoc_get(contents, sources.last()) {
            Some(c) => rest.push(c),
            None => rest,
        }
    }
}

/// The contents column never outgrows the sources column.
pub proof fn lemma_contents_of_len(sources: Seq<Seq<char>>, contents: Seq<(Seq<char>, Seq<char>)>)
    ensures
        contents_of(sources, contents).len() <= sources.len(),
    decreases sources.len(),
{
    if sources.len() > 0 {
        lemma_contents_of_len(sources.drop_last(), contents);
    }
}

/// The content recorded for `key`, if any.
fn content_for(list: &Vec<(Rc<String>, Rc<String>)>, key: &Rc<String>) -> (r: Option<String>)
    requires
        assoc_keys_distinct(list@.map_values(|e: (Rc<String>, Rc<String>)| (e.0@, e.1@))),
    ensures
        (match r {
            Some(c) => assoc_get(
                list@.map_values(|e: (Rc<String>, Rc<String>)| (e.0@, e.1@)),
                key@,
            ) == Some(c@),
            None => assoc_get(
                list@.map_values(|e: (Rc<String>, Rc<String>)| (e.0@, e.1@)),
                key@,
            ) is None,
        }),
{
    let ghost cv = list@.map_values(|e: (Rc<String>, Rc<String>)| (e.0@, e.1@));
    let n = list.len();
    let mut i: usize = 0;
    while i < n
        invariant
            n == list@.len(),
            i <= n,
            cv == list@.map_values(|e: (Rc<String>, Rc<String>)| (e.0@, e.1@)),
            assoc_keys_distinct(cv),
            forall|j: int| 0 <= j < i ==> cv[j].0 != key@,
        decreases n - i,
    {
        if rc_string_borrow(&list[i].0).eq(rc_string_borrow(key)) {
            proof {
                assert(cv[i as int].0 == key@);
                lemma_assoc_get_from_index(cv, i as int);
            }
            return Some(rc_string_borrow(&list[i].1).clone());
        }
        proof {
            assert(cv[i as int] == (list@[i as int].0@, list@[i as int].1@));
        }
        i += 1;
    }
    proof {
        lemma_assoc_get_none(cv, key@);
    }
    None
}

/// Index stability: accepting a mapping only ever appends to the source and
/// name tables, so every string already interned keeps the index — its
/// insertion rank — that it was assigned, for the generator's whole life.
pub proof fn lemma_index_stability(
    pre: SourceMapGenerator,
    post: SourceMapGenerator,
    m: MappingV,
)
    requires
        post.added_mapping(&pre, m),
    ensures
        pre.spec_sources().is_prefix_of(post.spec_sources()),
        pre.spec_names().is_prefix_of(post.spec_names()),
        forall|i: int|
            0 <= i < pre.spec_sources().len() ==> #[trigger] post.spec_sources()[i]
                == pre.spec_sources()[i],
        forall|i: int|
            0 <= i < pre.spec_names().len() ==> #[trigger] post.spec_names()[i]
                == pre.spec_names()[i],
{
    assert(pre.spec_sources().is_prefix_of(post.spec_sources())) by {
        match m.source {
            Some(x) => {
                if !pre.spec_sources().contains(x) {
                    assert(post.spec_sources() == pre.spec_sources().push(x));
                    assert(post.spec_sources().take(pre.spec_sources().len() as int)
                        =~= pre.spec_sources());
                } else {
                    assert(post.spec_sources().take(pre.spec_sources().len() as int)
                        =~= pre.spec_sources());
                }
            },
            None => {
                assert(post.spec_sources().take(pre.spec_sources().len() as int)
                    =~= pre.spec_sources());
            },
        }
    }
    assert(pre.spec_names().is_prefix_of(post.spec_names())) by {
        match m.name {
            Some(x) => {
                if !pre.spec_names().contains(x) {
                    assert(post.spec_names() == pre.spec_names().push(x));
                    assert(post.spec_names().take(pre.spec_names().len() as int)
                        =~= pre.spec_names());
                } else {
                    assert(post.spec_names().take(pre.spec_names().len() as int)
                        =~= pre.spec_names());
                }
            },
            None => {
                assert(post.spec_names().take(pre.spec_names().len() as int)
                    =~= pre.spec_names());
            },
        }
    }
}

/// Deterministic encoding: the `mappings` string is a function of the
/// generator's mapping list and tables alone, so two generators holding the
/// same state — for instance, built by the same sequence of calls — encode
/// to byte-identical strings.
pub proof fn lemma_deterministic_encoding(a: SourceMapGenerator, b: SourceMapGenerator)
    requires
        a.spec_mappings() == b.spec_mappings(),
        a.spec_sources() == b.spec_sources(),
        a.spec_names() == b.spec_names(),
    ensures
        serialize_spec(
            a.spec_mappings().sort_by(crate::mapping_list::mapping_order()),
            a.spec_sources(),
            a.spec_names(),
        ) == serialize_spec(
            b.spec_mappings().sort_by(crate::mapping_list::mapping_order()),
            b.spec_sources(),
            b.spec_names(),
        ),
{
}

/// The six running values the wire encoding keeps between segments.
pub struct EncState {
    pub gen_line: int,
    pub gen_col: int,
    pub orig_line: int,
    pub orig_col: int,
    pub source: int,
    pub name: int,
}

pub open spec fn init_enc_state() -> EncState {
    EncState { gen_line: 1, gen_col: 0, orig_line: 0, orig_col: 0, source: 0, name: 0 }
}

/// `n` semicolons: one per generated line crossed.
pub open spec fn semis(n: int) -> Seq<char>
    decreases n,
{
    if n <= 0 {
        Seq::empty()
    } else {
        semis(n - 1).push(';')
    }
}

/// The index of `s` in the table; meaningful where the table holds `s`.
pub open spec fn idx_of(t: Seq<Seq<char>>, s: Seq<char>) -> int
    decreases t.len(),
{
    if t.len() == 0 {
        0
    } else if t[0] == s {
        0
    } else {
        1 + idx_of(t.drop_first(), s)
    }
}

proof fn lemma_idx_of(t: Seq<Seq<char>>, s: Seq<char>, i: int)
    requires
        distinct_strs(t),
        0 <= i < t.len(),
        t[i] == s,
    ensures
        idx_of(t, s) == i,
    decreases t.len(),
{
    if i > 0 {
        assert(t[0] != s);
        assert forall|x: int, y: int| 0 <= x < y < t.drop_first().len() implies t.drop_first()[x]
            != t.drop_first()[y] by {
            assert(t.drop_first()[x] == t[x + 1]);
            assert(t.drop_first()[y] == t[y + 1]);
        }
        assert(t.drop_first()[i - 1] == t[i]);
        lemma_idx_of(t.drop_first(), s, i - 1);
    }
}

/// One wire segment: the separators owed since the previous segment, the
/// generated-column delta, and, for a source-bearing mapping, the source
/// index, original line (shifted to 0-based on the wire), original column
/// and, where a name is present, name index — each as a delta against the
/// running state.
pub open spec fn encode_segment(
    m: MappingV,
    i: int,
    st: EncState,
    sources: Seq<Seq<char>>,
    names: Seq<Seq<char>>,
) -> (Seq<char>, EncState) {
    let sep = if m.generated.0 != st.gen_line {
        semis(m.generated.0 - st.gen_line)
    } else if i > 0 {
        seq![',']
    } else {
        Seq::empty()
    };
    let st0 = if m.generated.0 != st.gen_line {
        EncState {
            gen_line: m.generated.0,
            gen_col: 0,
            orig_line: st.orig_line,
            orig_col: st.orig_col,
            source: st.source,
            name: st.name,
        }
    } else {
        st
    };
    let col_piece = vlq_encode_spec(m.generated.1 - st0.gen_col);
    let st1 = EncState {
        gen_line: st0.gen_line,
        gen_col: m.generated.1,
        orig_line: st0.orig_line,
        orig_col: st0.orig_col,
        source: st0.source,
        name: st0.name,
    };
    match m.source {
        Some(src) => {
            let si = idx_of(sources, src);
            let o = m.original->0;
            let src_piece = vlq_encode_spec(si - st1.source);
            let ol_piece = vlq_encode_spec((o.0 - 1) - st1.orig_line);
            let oc_piece = vlq_encode_spec(o.1 - st1.orig_col);
            let st2 = EncState {
                gen_line: st1.gen_line,
                gen_col: st1.gen_col,
                orig_line: o.0 - 1,
                orig_col: o.1,
                source: si,
                name: st1.name,
            };
            match m.name {
                Some(nm) => {
                    let ni = idx_of(names, nm);
                    (
                        sep + col_piece + src_piece + ol_piece + oc_piece + vlq_encode_spec(
                            ni - st2.name,
                        ),
                        EncState {
                            gen_line: st2.gen_line,
                            gen_col: st2.gen_col,
                            orig_line: st2.orig_line,
                            orig_col: st2.orig_col,
                            source: st2.source,
                            name: ni,
                        },
                    )
                },
                None => (sep + col_piece + src_piece + ol_piece + oc_piece, st2),
            }
        },
        None => (sep + col_piece, st1),
    }
}

/// The wire string of the first `n` mappings, with the state it leaves.
pub open spec fn encode_upto(
    ms: Seq<MappingV>,
    n: int,
    sources: Seq<Seq<char>>,
    names: Seq<Seq<char>>,
) -> (Seq<char>, EncState)
    decreases n,
{
    if n <= 0 {
        (Seq::empty(), init_enc_state())
    } else {
        let prev = encode_upto(ms, n - 1, sources, names);
        let step = encode_segment(ms[n - 1], n - 1, prev.1, sources, names);
        (prev.0 + step.0, step.1)
    }
}

/// The `mappings` string of a sorted mapping sequence.
pub open spec fn serialize_spec(
    ms: Seq<MappingV>,
    sources: Seq<Seq<char>>,
    names: Seq<Seq<char>>,
) -> Seq<char> {
    encode_upto(ms, ms.len() as int, sources, names).0
}

/// What the encoder demands of a mapping: a source-bearing mapping carries an
/// original position with a 1-based line, and the generated line is 1-based.
pub open spec fn serializable_mapping(m: MappingV) -> bool {
    &&& m.generated.0 >= 1
    &&& (m.source is Some ==> m.original is Some && (m.original->0).0 >= 1)
}

/// The state the encoder leaves holds the last generated line it saw.
proof fn lemma_encode_upto_line(
    ms: Seq<MappingV>,
    n: int,
    sources: Seq<Seq<char>>,
    names: Seq<Seq<char>>,
)
    requires
        0 <= n <= ms.len(),
    ensures
        n == 0 ==> encode_upto(ms, n, sources, names).1 == init_enc_state(),
        n > 0 ==> encode_upto(ms, n, sources, names).1.gen_line == ms[n - 1].generated.0,
{
}

} // verus!
