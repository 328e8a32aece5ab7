use vstd::prelude::*;
use std::rc::Rc;
use crate::{StringPtr, rc_string_borrow, rc_string_clone};
use crate::mapping::{Mapping, MappingV, opt_str_view, opt_pos_view};
use crate::source_map::{SrcMap, StringWithSrcMap, str_views, opt_string_view};
use crate::source_map_generator::{
    SourceMapGenerator, coord_ok, mapping_coords_ok, intern_spec, assoc_get, relative_spec,
    contents_of, serialize_spec,
};
use crate::mapping_list::mapping_order;

verus! {

/// A child of a source node: a nested annotated node, a raw text chunk
/// (owned or shared), or a vector of children to be spliced in.
#[derive(Debug)]
pub enum Node {
    NSourceNode(SourceNode),
    NString(String),
    NRcString(Rc<String>),
    NNodeVec(Vec<Node>),
}

/// An annotated rope node: its position, source and name annotate each plain
/// text chunk it directly contains; nested nodes carry their own.
#[derive(Debug)]
pub struct SourceNode {
    pub children: Vec<Node>,
    pub source_contents: Vec<(Rc<String>, Rc<String>)>,
    // (line, column)
    pub position: Option<(usize, usize)>,
    pub source: Option<Rc<String>>,
    pub name: Option<Rc<String>>,
}

/// The strings a list of (source, content) pairs holds.
pub open spec fn pair_views(s: Seq<(Rc<String>, Rc<String>)>) -> Seq<(Seq<char>, Seq<char>)> {
    s.map_values(|e: (Rc<String>, Rc<String>)| (e.0@, e.1@))
}

/// The generator's state as the walker sees it.
pub struct GenV {
    pub file: Option<Seq<char>>,
    pub root: Option<Seq<char>>,
    pub sources: Seq<Seq<char>>,
    pub names: Seq<Seq<char>>,
    pub mappings: Seq<MappingV>,
    pub contents: Seq<(Seq<char>, Seq<char>)>,
}

/// Accepting a mapping interns its source and name and appends it.
pub open spec fn gen_add(g: GenV, m: MappingV) -> GenV {
    GenV {
        sources: match m.source {
            Some(s) => intern_spec(g.sources, s),
            None => g.sources,
        },
        names: match m.name {
            Some(n) => intern_spec(g.names, n),
            None => g.names,
        },
        mappings: g.mappings.push(m),
        ..g
    }
}

/// Recording content for a source: the path is made relative to the root,
/// and the first content recorded for a source wins.
pub open spec fn gen_set_content(g: GenV, file: Seq<char>, content: Seq<char>) -> GenV {
    let key = match g.root {
        Some(r) => relative_spec(r, file),
        None => file,
    };
    GenV {
        contents: if assoc_get(g.contents, key) is Some {
            g.contents
        } else {
            g.contents.push((key, content))
        },
        ..g
    }
}

/// The walker's state: the position the next character lands on, the text
/// emitted so far, whether a source mapping is active, the last original
/// triple emitted, and the generator being fed.
pub struct WalkV {
    pub gen_line: int,
    pub gen_col: int,
    pub code: Seq<char>,
    pub active: bool,
    pub last_source: Option<Seq<char>>,
    pub last_pos: Option<(int, int)>,
    pub last_name: Option<Seq<char>>,
    pub gen: GenV,
}

pub open spec fn emit(st: WalkV, m: MappingV) -> WalkV {
    WalkV { gen: gen_add(st.gen, m), ..st }
}

/// The character scan of a chunk from index `j` on: a newline advances the
/// line; at a chunk-final newline the mapping state resets, at an inner
/// newline an active mapping emits a continuation; any other character
/// advances the column.
pub open spec fn scan_from(
    chunk: Seq<char>,
    j: int,
    src: Option<Seq<char>>,
    pos: Option<(int, int)>,
    name: Option<Seq<char>>,
    st: WalkV,
) -> WalkV
    decreases chunk.len() - j,
{
    if j < 0 || j >= chunk.len() {
        st
    } else {
        let c = chunk[j];
        let st2 = if c == '\n' {
            let stl = WalkV { gen_line: st.gen_line + 1, gen_col: 0, ..st };
            if j == chunk.len() - 1 {
                WalkV { last_source: None, active: false, ..stl }
            } else if stl.active {
                emit(
                    stl,
                    MappingV {
                        generated: (stl.gen_line, stl.gen_col),
                        source: src,
                        name: name,
                        original: pos,
                    },
                )
            } else {
                stl
            }
        } else {
            WalkV { gen_col: st.gen_col + 1, ..st }
        };
        scan_from(chunk, j + 1, src, pos, name, st2)
    }
}

/// Processing one text chunk under the enclosing node's annotations: the
/// text is appended; a chunk with source and position emits a mapping when
/// the original triple changed and arms the active flag; a chunk without
/// them closes an active mapping with a terminating mapping; then the
/// characters are scanned.
pub open spec fn process_chunk_spec(
    st: WalkV,
    chunk: Seq<char>,
    src: Option<Seq<char>>,
    pos: Option<(int, int)>,
    name: Option<Seq<char>>,
) -> WalkV {
    let st0 = WalkV { code: st.code + chunk, ..st };
    let st1 = if src is Some && pos is Some {
        let st0b = if st.last_source != src || st.last_pos != pos || st.last_name != name {
            emit(
                st0,
                MappingV {
                    generated: (st.gen_line, st.gen_col),
                    source: src,
                    name: name,
                    original: pos,
                },
            )
        } else {
            st0
        };
        WalkV { last_source: src, last_pos: pos, last_name: name, active: true, ..st0b }
    } else if st.active {
        let st0b = emit(
            st0,
            MappingV {
                generated: (st.gen_line, st.gen_col),
                source: None,
                name: None,
                original: None,
            },
        );
        WalkV { last_source: None, active: false, ..st0b }
    } else {
        st0
    };
    scan_from(chunk, 0, src, pos, name, st1)
}

/// Walking a node: its children in order — a nested node with its own
/// annotations, a text chunk with the parent's — then the node's recorded
/// source contents are forwarded to the generator.
pub open spec fn walk_sn_spec(sn: SourceNode, st: WalkV) -> WalkV
    decreases sn, 1int,
{
    contents_fold_from(
        pair_views(sn.source_contents@),
        0,
        walk_children_from(
            sn.children@,
            0,
            opt_str_view(&sn.source),
            opt_pos_view(&sn.position),
            opt_str_view(&sn.name),
            st,
        ),
    )
}

pub open spec fn walk_children_from(
    ch: Seq<Node>,
    i: int,
    src: Option<Seq<char>>,
    pos: Option<(int, int)>,
    name: Option<Seq<char>>,
    st: WalkV,
) -> WalkV
    decreases ch, ch.len() - i,
{
    if i < 0 || i >= ch.len() {
        st
    } else {
        let st2 = match ch[i] {
            Node::NSourceNode(sn) => walk_sn_spec(sn, st),
            Node::NRcString(p) => process_chunk_spec(st, p@, src, pos, name),
            _ => st,
        };
        walk_children_from(ch, i + 1, src, pos, name, st2)
    }
}

pub open spec fn contents_fold_from(
    entries: Seq<(Seq<char>, Seq<char>)>,
    i: int,
    st: WalkV,
) -> WalkV
    decreases entries.len() - i,
{
    if i < 0 || i >= entries.len() {
        st
    } else {
        contents_fold_from(
            entries,
            i + 1,
            WalkV { gen: gen_set_content(st.gen, entries[i].0, entries[i].1), ..st },
        )
    }
}

/// How much text a node contributes to the generated output.
pub open spec fn node_text_len(n: Node) -> nat
    decreases n, 1int,
{
    match n {
        Node::NSourceNode(sn) => seq_text_len(sn.children@, 0),
        Node::NRcString(p) => p@.len(),
        _ => 0,
    }
}

pub open spec fn seq_text_len(ch: Seq<Node>, i: int) -> nat
    decreases ch, ch.len() - i,
{
    if i < 0 || i >= ch.len() {
        0
    } else {
        node_text_len(ch[i]) + seq_text_len(ch, i + 1)
    }
}

pub open spec fn sn_text_len(sn: SourceNode) -> nat {
    seq_text_len(sn.children@, 0)
}

/// An upper bound on how many mappings a node's walk can emit: one per chunk
/// plus one per chunk character.
pub open spec fn node_weight(n: Node) -> nat
    decreases n, 1int,
{
    match n {
        Node::NSourceNode(sn) => seq_weight(sn.children@, 0),
        Node::NRcString(p) => 1 + p@.len(),
        _ => 0,
    }
}

pub open spec fn seq_weight(ch: Seq<Node>, i: int) -> nat
    decreases ch, ch.len() - i,
{
    if i < 0 || i >= ch.len() {
        0
    } else {
        node_weight(ch[i]) + seq_weight(ch, i + 1)
    }
}

pub open spec fn sn_weight(sn: SourceNode) -> nat {
    seq_weight(sn.children@, 0)
}

/// The annotations a node may carry: positions in range, and a 1-based line
/// wherever a source is attached.
pub open spec fn sn_ann_ok(sn: SourceNode) -> bool {
    &&& (match sn.position {
        Some(p) => coord_ok(p.0 as int) && coord_ok(p.1 as int),
        None => true,
    })
    &&& (sn.source is Some && sn.position is Some ==> (sn.position->0).0 >= 1)
}

pub open spec fn node_wf(n: Node) -> bool
    decreases n, 1int,
{
    match n {
        Node::NSourceNode(sn) => sn_ann_ok(sn) && seq_wf(sn.children@, 0),
        _ => true,
    }
}

pub open spec fn seq_wf(ch: Seq<Node>, i: int) -> bool
    decreases ch, ch.len() - i,
{
    i < 0 || i >= ch.len() || (node_wf(ch[i]) && seq_wf(ch, i + 1))
}

pub open spec fn sn_wf(sn: SourceNode) -> bool {
    sn_ann_ok(sn) && seq_wf(sn.children@, 0)
}

/// What `add` does to the children: a vector is spliced element-wise, an
/// owned string is interned into a shared one, anything else is pushed.
pub open spec fn added_child(pre: Seq<Node>, post: Seq<Node>, chunk: Node) -> bool {
    match chunk {
        Node::NNodeVec(v) => post == pre + v@,
        Node::NSourceNode(sn) => post == pre.push(Node::NSourceNode(sn)),
        Node::NString(s) => {
            &&& post.len() == pre.len() + 1
            &&& post.take(pre.len() as int) == pre
            &&& post.last() matches Node::NRcString(p) && p@ == s@
        },
        Node::NRcString(p) => post == pre.push(Node::NRcString(p)),
    }
}

impl SourceNode {
    pub fn new(
        position: Option<(usize, usize)>,
        source: Option<StringPtr>,
        name: Option<StringPtr>,
        chunks: Option<Node>,
    ) -> (sn: SourceNode)
        ensures
            sn.position == position,
            opt_str_view(&sn.source) == (match source {
                Some(sp) => Some(sp@),
                None => None::<Seq<char>>,
            }),
            opt_str_view(&sn.name) == (match name {
                Some(sp) => Some(sp@),
                None => None::<Seq<char>>,
            }),
            sn.source_contents@.len() == 0,
            (match chunks {
                Some(c) => added_child(Seq::empty(), sn.children@, c),
                None => sn.children@.len() == 0,
            }),
    {
        let source = match source {
            Some(sp) => Some(sp.to_ptr()),
            None => None,
        };
        let name = match name {
            Some(sp) => Some(sp.to_ptr()),
            None => None,
        };
        let mut sn = SourceNode {
            position,
            source,
            name,
            children: Vec::new(),
            source_contents: Vec::new(),
        };
        if let Some(chunks) = chunks {
            sn.add(chunks);
        }
        sn
    }

    /// Flattens the chunk into the children list.
    pub fn add(&mut self, chunk: Node)
        ensures
            final(self).position == old(self).position,
            final(self).source == old(self).source,
            final(self).name == old(self).name,
            final(self).source_contents == old(self).source_contents,
            added_child(old(self).children@, final(self).children@, chunk),
    {
        match chunk {
            Node::NNodeVec(mut nv) => {
                let ghost pre = self.children@;
                let ghost nvv = nv@;
                while nv.len() > 0
                    invariant
                        nv@.len() <= nvv.len(),
                        nv@ =~= nvv.skip(nvv.len() - nv@.len()),
                        self.children@ =~= pre + nvv.take(nvv.len() - nv@.len()),
                        self.position == old(self).position,
                        self.source == old(self).source,
                        self.name == old(self).name,
                        self.source_contents == old(self).source_contents,
                    decreases nv@.len(),
                {
                    let ghost done = nvv.len() - nv@.len();
                    proof {
                        assert(0 <= done < nvv.len());
                        assert(nv@[0] == nvv.skip(done as int)[0]);
                    }
                    let x = nv.remove(0);
                    proof {
                        assert(x == nvv[done as int]);
                        assert(nv@ =~= nvv.skip(done + 1));
                    }
                    self.children.push(x);
                    proof {
                        assert(self.children@ =~= pre + nvv.take(done + 1));
                    }
                }
                proof {
                    assert(nvv.take(nvv.len() as int) =~= nvv);
                }
            },
            Node::NSourceNode(sn) => {
                self.children.push(Node::NSourceNode(sn));
            },
            Node::NString(s) => {
                let ghost pre = self.children@;
                self.children.push(Node::NRcString(Rc::new(s)));
                proof {
                    assert(self.children@.take(pre.len() as int) =~= pre);
                }
            },
            Node::NRcString(sp) => {
                self.children.push(Node::NRcString(sp));
            },
        }
    }

    /// Records content for a source on this node, replacing any previous
    /// recording for the same source.
    pub fn set_source_content(&mut self, source: StringPtr, source_content: StringPtr)
        ensures
            final(self).position == old(self).position,
            final(self).source == old(self).source,
            final(self).name == old(self).name,
            final(self).children == old(self).children,
            ({
                let pre = pair_views(old(self).source_contents@);
                let post = pair_views(final(self).source_contents@);
                if forall|i: int| 0 <= i < pre.len() ==> pre[i].0 != source@ {
                    post == pre.push((source@, source_content@))
                } else {
                    exists|i: int|
                        0 <= i < pre.len() && pre[i].0 == source@ && (forall|j: int|
                            0 <= j < i ==> pre[j].0 != source@) && post == pre.update(
                            i,
                            (source@, source_content@),
                        )
                }
            }),
    {
        let key = source.to_ptr();
        let content = source_content.to_ptr();
        let ghost pre = pair_views(self.source_contents@);
        let n = self.source_contents.len();
        let mut i: usize = 0;
        while i < n
            invariant
                n == self.source_contents@.len(),
                i <= n,
                *self == *old(self),
                pre == pair_views(self.source_contents@),
                key@ == source@,
                content@ == source_content@,
                forall|j: int| 0 <= j < i ==> pre[j].0 != source@,
            decreases n - i,
        {
            if rc_string_borrow(&self.source_contents[i].0).eq(rc_string_borrow(&key)) {
                proof {
                    assert(pre[i as int].0 == source@);
                }
                self.source_contents.set(i, (key, content));
                proof {
                    assert(pair_views(self.source_contents@) =~= pre.update(
                        i as int,
                        (source@, source_content@),
                    ));
                }
                return;
            }
            proof {
                assert(pre[i as int] == (self.source_contents@[i as int].0@,
                self.source_contents@[i as int].1@));
            }
            i += 1;
        }
        self.source_contents.push((key, content));
        proof {
            assert(pair_views(self.source_contents@) =~= pre.push((source@, source_content@)));
        }
    }
}

/// The generator's whole state at the view level.
pub open spec fn gen_view(g: &SourceMapGenerator) -> GenV {
    GenV {
        file: g.spec_file(),
        root: g.spec_source_root(),
        sources: g.spec_sources(),
        names: g.spec_names(),
        mappings: g.spec_mappings(),
        contents: g.spec_contents(),
    }
}

/// The walker's starting state over a fresh generator.
pub open spec fn init_walk(file: Option<Seq<char>>, root: Option<Seq<char>>) -> WalkV {
    WalkV {
        gen_line: 1,
        gen_col: 0,
        code: Seq::empty(),
        active: false,
        last_source: None,
        last_pos: None,
        last_name: None,
        gen: GenV {
            file,
            root,
            sources: Seq::empty(),
            names: Seq::empty(),
            mappings: Seq::empty(),
            contents: Seq::empty(),
        },
    }
}

/// The walker's working state: a validation-free generator plus the
/// deduplication state of the chunk stream.
pub struct ToSourceMapContext {
    pub map: SourceMapGenerator,
    pub source_mapping_active: bool,
    pub last_original_source: Option<Rc<String>>,
    pub last_original_position: Option<(usize, usize)>,
    pub last_original_name: Option<Rc<String>>,
    pub generated_code: String,
    pub generated_position: (usize, usize),
}

impl View for ToSourceMapContext {
    type V = WalkV;

    open spec fn view(&self) -> WalkV {
        WalkV {
            gen_line: self.generated_position.0 as int,
            gen_col: self.generated_position.1 as int,
            code: self.generated_code@,
            active: self.source_mapping_active,
            last_source: opt_str_view(&self.last_original_source),
            last_pos: opt_pos_view(&self.last_original_position),
            last_name: opt_str_view(&self.last_original_name),
            gen: gen_view(&self.map),
        }
    }
}

impl ToSourceMapContext {
    /// The walker's invariant: the generator stays well-formed and
    /// serializable, and the position never runs ahead of the emitted text.
    pub open spec fn wf(&self) -> bool {
        &&& self.map.wf()
        &&& self.map.serializable()
        &&& self.map.skip_validation
        &&& self.generated_position.0 >= 1
        &&& (self.generated_position.0 - 1) + self.generated_position.1
            <= self.generated_code@.len()
    }

    pub fn new(
        file: Option<Rc<String>>,
        source_root: Option<Rc<String>>,
        skip_validation: bool,
    ) -> (r: ToSourceMapContext)
        requires
            skip_validation,
        ensures
            r.wf(),
            r@ == init_walk(
                (match file {
                    Some(f) => Some(f@),
                    None => None::<Seq<char>>,
                }),
                (match source_root {
                    Some(f) => Some(f@),
                    None => None::<Seq<char>>,
                }),
            ),
    {
        let file = match file {
            Some(sp) => Some(StringPtr::Ptr(sp)),
            None => None,
        };
        let source_root = match source_root {
            Some(sp) => Some(StringPtr::Ptr(sp)),
            None => None,
        };
        let r = ToSourceMapContext {
            map: SourceMapGenerator::new(file, source_root, skip_validation),
            source_mapping_active: false,
            last_original_source: None,
            last_original_position: None,
            last_original_name: None,
            generated_code: String::new(),
            generated_position: (1, 0),
        };
        proof {
            assert(r.map.spec_sources() =~= Seq::<Seq<char>>::empty());
            assert(r.map.spec_names() =~= Seq::<Seq<char>>::empty());
            assert(r.map.spec_mappings() =~= Seq::<MappingV>::empty());
            assert(r.map.spec_contents() =~= Seq::<(Seq<char>, Seq<char>)>::empty());
        }
        r
    }
}

impl ToSourceMapContext {
    /// One text chunk under its node's annotations: append the text, emit
    /// the start-of-chunk mapping the dedup rules call for, then scan the
    /// characters, tracking lines and emitting continuations.
    pub fn process_chunk(
        &mut self,
        chunk: &Rc<String>,
        original_source: &Option<Rc<String>>,
        original_position: &Option<(usize, usize)>,
        original_name: &Option<Rc<String>>,
    )
        requires
            old(self).wf(),
            (match original_position {
                Some(p) => coord_ok(p.0 as int) && coord_ok(p.1 as int),
                None => true,
            }),
            original_source is Some && original_position is Some ==> (original_position->0).0
                >= 1,
            old(self).generated_code@.len() + chunk@.len() + 1 < 0x4000_0000_0000_0000,
            old(self).generated_code@.len() + chunk@.len() + 1 <= usize::MAX,
            old(self).map.spec_mappings().len() + 1 + chunk@.len() < 0x4000_0000_0000_0000,
        ensures
            final(self).wf(),
            final(self)@ == process_chunk_spec(
                old(self)@,
                chunk@,
                opt_str_view(original_source),
                opt_pos_view(original_position),
                opt_str_view(original_name),
            ),
            final(self).generated_code@.len() == old(self).generated_code@.len() + chunk@.len(),
            final(self).map.spec_mappings().len() <= old(self).map.spec_mappings().len() + 1
                + chunk@.len(),
            final(self).map.file == old(self).map.file,
            final(self).map.source_root == old(self).map.source_root,
    {
        let ghost st = self@;
        let ghost srcv = opt_str_view(original_source);
        let ghost posv = opt_pos_view(original_position);
        let ghost namev = opt_str_view(original_name);
        self.generated_code.append(rc_string_borrow(chunk).as_str());
        if original_source.is_some() && original_position.is_some() {
            let same = opt_rc_eq(&self.last_original_source, original_source) && opt_pos_eq(
                &self.last_original_position,
                original_position,
            ) && opt_rc_eq(&self.last_original_name, original_name);
            if !same {
                let m = Mapping {
                    source: clone_opt_rc(original_source),
                    original: *original_position,
                    generated: self.generated_position,
                    name: clone_opt_rc(original_name),
                };
                proof {
                    assert(m@ == (MappingV {
                        generated: (st.gen_line, st.gen_col),
                        source: srcv,
                        name: namev,
                        original: posv,
                    }));
                }
                let _res = self.map.add_mapping(m);
            }
            self.last_original_source = clone_opt_rc(original_source);
            self.last_original_position = *original_position;
            self.last_original_name = clone_opt_rc(original_name);
            self.source_mapping_active = true;
        } else if self.source_mapping_active {
            let m = Mapping {
                source: None,
                original: None,
                generated: self.generated_position,
                name: None,
            };
            let res = self.map.add_mapping(m);
            self.last_original_source = None;
            self.source_mapping_active = false;
        }
        let ghost st1 = self@;
        proof {
            let st0 = WalkV { code: st.code + chunk@, ..st };
            assert(st.code + chunk@ =~= self.generated_code@);
            if srcv is Some && posv is Some {
                if st.last_source != srcv || st.last_pos != posv || st.last_name != namev {
                    assert(st1 == (WalkV {
                        last_source: srcv,
                        last_pos: posv,
                        last_name: namev,
                        active: true,
                        ..emit(
                            st0,
                            MappingV {
                                generated: (st.gen_line, st.gen_col),
                                source: srcv,
                                name: namev,
                                original: posv,
                            },
                        )
                    }));
                } else {
                    assert(st1 == (WalkV {
                        last_source: srcv,
                        last_pos: posv,
                        last_name: namev,
                        active: true,
                        ..st0
                    }));
                }
            } else if st.active {
                assert(st1 == (WalkV {
                    last_source: None,
                    active: false,
                    ..emit(
                        st0,
                        MappingV {
                            generated: (st.gen_line, st.gen_col),
                            source: None,
                            name: None,
                            original: None,
                        },
                    )
                }));
            } else {
                assert(st1 == st0);
            }
        }
        let cs = rc_string_borrow(chunk);
        let s = cs.as_str();
        let clen = s.unicode_len();
        let mut j: usize = 0;
        while j < clen
            invariant
                s@ == chunk@,
                clen == chunk@.len(),
                j <= clen,
                self.wf(),
                srcv == opt_str_view(original_source),
                posv == opt_pos_view(original_position),
                namev == opt_str_view(original_name),
                self.map.file == old(self).map.file,
                self.map.source_root == old(self).map.source_root,
                (match posv {
                    Some(p) => coord_ok(p.0) && coord_ok(p.1),
                    None => true,
                }),
                srcv is Some && posv is Some ==> (posv->0).0 >= 1,
                self.generated_code@ == st.code + chunk@,
                st.code.len() + chunk@.len() + 1 < 0x4000_0000_0000_0000,
                st.code.len() + chunk@.len() + 1 <= usize::MAX,
                (self.generated_position.0 - 1) + self.generated_position.1 + (clen - j)
                    <= self.generated_code@.len(),
                self.source_mapping_active ==> original_source is Some && original_position is Some,
                self.map.spec_mappings().len() + (clen - j) <= st.gen.mappings.len() + 1
                    + chunk@.len(),
                scan_from(chunk@, j as int, srcv, posv, namev, self@) == scan_from(
                    chunk@,
                    0,
                    srcv,
                    posv,
                    namev,
                    st1,
                ),
            decreases clen - j,
        {
            let ghost stj = self@;
            let c = s.get_char(j);
            if c == '\n' {
                self.generated_position = (self.generated_position.0 + 1, 0);
                if j + 1 == clen {
                    self.last_original_source = None;
                    self.source_mapping_active = false;
                } else if self.source_mapping_active {
                    let m = Mapping {
                        source: clone_opt_rc(original_source),
                        original: *original_position,
                        generated: self.generated_position,
                        name: clone_opt_rc(original_name),
                    };
                    proof {
                        assert(coord_ok(self.generated_position.0 as int));
                        assert(coord_ok(self.generated_position.1 as int));
                        assert(m@.original == posv);
                        assert(match m@.original {
                            Some(o) => coord_ok(o.0) && coord_ok(o.1),
                            None => true,
                        });
                        assert(mapping_coords_ok(m@));
                    }
                    let _res = self.map.add_mapping(m);
                }
            } else {
                self.generated_position = (self.generated_position.0, self.generated_position.1
                    + 1);
            }
            proof {
                let cj = chunk@[j as int];
                let st2 = if cj == '\n' {
                    let stl = WalkV { gen_line: stj.gen_line + 1, gen_col: 0, ..stj };
                    if j as int == chunk@.len() - 1 {
                        WalkV { last_source: None, active: false, ..stl }
                    } else if stl.active {
                        emit(
                            stl,
                            MappingV {
                                generated: (stl.gen_line, stl.gen_col),
                                source: srcv,
                                name: namev,
                                original: posv,
                            },
                        )
                    } else {
                        stl
                    }
                } else {
                    WalkV { gen_col: stj.gen_col + 1, ..stj }
                };
                assert(self@ == st2);
                assert(scan_from(chunk@, j as int, srcv, posv, namev, stj) == scan_from(
                    chunk@,
                    j + 1,
                    srcv,
                    posv,
                    namev,
                    st2,
                ));
            }
            j += 1;
        }
        proof {
            assert(scan_from(chunk@, clen as int, srcv, posv, namev, self@) == self@);
        }
    }
}

impl ToSourceMapContext {
    /// Forwards one recorded (source, content) pair to the generator.
    pub fn process_source_content(&mut self, source: &Rc<String>, source_content: &Rc<String>)
        requires
            old(self).wf(),
        ensures
            final(self).wf(),
            final(self)@ == (WalkV {
                gen: gen_set_content(old(self)@.gen, source@, source_content@),
                ..old(self)@
            }),
            final(self).map.file == old(self).map.file,
            final(self).map.source_root == old(self).map.source_root,
    {
        let ghost pre = self.map;
        self.map.set_source_content(
            StringPtr::Ptr(rc_string_clone(source)),
            Some(StringPtr::Ptr(rc_string_clone(source_content))),
        );
        proof {
            assert(self.map.spec_mappings() == pre.spec_mappings());
            assert forall|ix: int|
                0 <= ix < self.map.spec_mappings().len() implies crate::source_map_generator::serializable_mapping(
                #[trigger] self.map.spec_mappings()[ix],
            ) by {
                assert(crate::source_map_generator::serializable_mapping(
                    pre.spec_mappings()[ix],
                ));
            }
            assert(gen_view(&self.map) == gen_set_content(gen_view(&pre), source@, source_content@));
        }
    }
}

impl SourceNode {
    /// The depth-first, left-to-right walk: each child in order — a nested
    /// node with its own annotations, a chunk with this node's — then this
    /// node's recorded source contents.
    fn walk(&self, context: &mut ToSourceMapContext)
        requires
            sn_wf(*self),
            old(context).wf(),
            old(context).generated_code@.len() + sn_text_len(*self) + 1 < 0x4000_0000_0000_0000,
            old(context).generated_code@.len() + sn_text_len(*self) + 1 <= usize::MAX,
            old(context).map.spec_mappings().len() + sn_weight(*self) < 0x4000_0000_0000_0000,
        ensures
            final(context).wf(),
            final(context)@ == walk_sn_spec(*self, old(context)@),
            final(context).generated_code@.len() == old(context).generated_code@.len()
                + sn_text_len(*self),
            final(context).map.spec_mappings().len() <= old(context).map.spec_mappings().len()
                + sn_weight(*self),
            final(context).map.file == old(context).map.file,
            final(context).map.source_root == old(context).map.source_root,
        decreases *self,
    {
        let ghost ch = self.children@;
        let ghost srcv = opt_str_view(&self.source);
        let ghost posv = opt_pos_view(&self.position);
        let ghost namev = opt_str_view(&self.name);
        let ghost st0 = context@;
        let n = self.children.len();
        let mut i: usize = 0;
        while i < n
            invariant
                n == self.children@.len(),
                i <= n,
                ch == self.children@,
                srcv == opt_str_view(&self.source),
                posv == opt_pos_view(&self.position),
                namev == opt_str_view(&self.name),
                sn_wf(*self),
                seq_wf(ch, i as int),
                context.wf(),
                context.map.file == old(context).map.file,
                context.map.source_root == old(context).map.source_root,
                walk_children_from(ch, i as int, srcv, posv, namev, context@)
                    == walk_children_from(ch, 0, srcv, posv, namev, st0),
                context.generated_code@.len() + seq_text_len(ch, i as int) == st0.code.len()
                    + seq_text_len(ch, 0),
                context.map.spec_mappings().len() + seq_weight(ch, i as int)
                    <= st0.gen.mappings.len() + seq_weight(ch, 0),
                st0.code.len() + seq_text_len(ch, 0) + 1 < 0x4000_0000_0000_0000,
                st0.code.len() + seq_text_len(ch, 0) + 1 <= usize::MAX,
                st0.gen.mappings.len() + seq_weight(ch, 0) < 0x4000_0000_0000_0000,
            decreases n - i,
        {
            let ghost stp = context@;
            proof {
                assert(seq_text_len(ch, i as int) == node_text_len(ch[i as int]) + seq_text_len(
                    ch,
                    i + 1,
                ));
                assert(seq_weight(ch, i as int) == node_weight(ch[i as int]) + seq_weight(
                    ch,
                    i + 1,
                ));
                assert(node_wf(ch[i as int]) && seq_wf(ch, i + 1));
            }
            match &self.children[i] {
                Node::NSourceNode(sn) => {
                    proof {
                        assert(node_text_len(ch[i as int]) == sn_text_len(*sn));
                        assert(node_weight(ch[i as int]) == sn_weight(*sn));
                        assert(sn_wf(*sn));
                    }
                    sn.walk(context);
                },
                Node::NRcString(chunk) => {
                    context.process_chunk(chunk, &self.source, &self.position, &self.name);
                },
                _ => {},
            }
            proof {
                assert(walk_children_from(ch, i as int, srcv, posv, namev, stp)
                    == walk_children_from(ch, i + 1, srcv, posv, namev, context@));
            }
            i += 1;
        }
        let ghost stc = context@;
        let ghost cv = pair_views(self.source_contents@);
        let m = self.source_contents.len();
        let mut k: usize = 0;
        while k < m
            invariant
                m == self.source_contents@.len(),
                k <= m,
                cv == pair_views(self.source_contents@),
                context.wf(),
                context.map.file == old(context).map.file,
                context.map.source_root == old(context).map.source_root,
                contents_fold_from(cv, k as int, context@) == contents_fold_from(cv, 0, stc),
                context.generated_code@ == stc.code,
                context.map.spec_mappings().len() == stc.gen.mappings.len(),
            decreases m - k,
        {
            let ghost stp = context@;
            let entry = &self.source_contents[k];
            proof {
                assert(cv[k as int] == (entry.0@, entry.1@));
            }
            context.process_source_content(&entry.0, &entry.1);
            proof {
                assert(context@ == (WalkV {
                    gen: gen_set_content(stp.gen, cv[k as int].0, cv[k as int].1),
                    ..stp
                }));
                assert(contents_fold_from(cv, k as int, stp) == contents_fold_from(
                    cv,
                    k + 1,
                    context@,
                ));
            }
            k += 1;
        }
        proof {
            assert(contents_fold_from(cv, m as int, context@) == context@);
            assert(walk_children_from(ch, n as int, srcv, posv, namev, stc) == stc);
        }
    }

    /// Walks the tree into a fresh, validation-free generator and returns
    /// the generated text together with its source map.
    pub fn to_string_with_source_map(
        &self,
        file: Option<StringPtr>,
        source_root: Option<StringPtr>,
    ) -> (r: StringWithSrcMap)
        requires
            sn_wf(*self),
            sn_text_len(*self) + 1 < 0x4000_0000_0000_0000,
            sn_text_len(*self) + 1 <= usize::MAX,
            sn_weight(*self) < 0x4000_0000_0000_0000,
        ensures
            ({
                let fv = (match file {
                    Some(f) => Some(f@),
                    None => None::<Seq<char>>,
                });
                let rv = (match source_root {
                    Some(f) => Some(f@),
                    None => None::<Seq<char>>,
                });
                let st = walk_sn_spec(*self, init_walk(fv, rv));
                &&& r.source@ == st.code
                &&& r.map.version == 3
                &&& opt_string_view(&r.map.file) == fv
                &&& opt_string_view(&r.map.source_root) == rv
                &&& str_views(r.map.sources@) == st.gen.sources
                &&& str_views(r.map.names@) == st.gen.names
                &&& r.map.mappings@ == serialize_spec(
                    st.gen.mappings.sort_by(mapping_order()),
                    st.gen.sources,
                    st.gen.names,
                )
                &&& str_views(r.map.sources_content@) == contents_of(st.gen.sources, st.gen.contents)
                &&& r.map.sources_content@.len() <= r.map.sources@.len()
            }),
    {
        let ghost fv = (match file {
            Some(ref f) => Some(f@),
            None => None::<Seq<char>>,
        });
        let ghost rv = (match source_root {
            Some(ref f) => Some(f@),
            None => None::<Seq<char>>,
        });
        let file = match file {
            Some(sp) => Some(sp.to_ptr()),
            None => None,
        };
        let source_root = match source_root {
            Some(sp) => Some(sp.to_ptr()),
            None => None,
        };
        let skip_validation = true;
        let mut context = ToSourceMapContext::new(file, source_root, skip_validation);
        proof {
            assert(context@ == init_walk(fv, rv));
        }
        self.walk(&mut context);
        let ghost st = walk_sn_spec(*self, init_walk(fv, rv));
        proof {
            assert(context@ == st);
            assert(context.map.spec_sources() == st.gen.sources);
            assert(context.map.spec_names() == st.gen.names);
            assert(context.map.spec_mappings() == st.gen.mappings);
            assert(context.map.spec_contents() == st.gen.contents);
            assert(context.map.spec_file() == fv);
            assert(context.map.spec_source_root() == rv);
            assert(context.generated_code@ == st.code);
        }
        let map = context.map.to_source_map();
        StringWithSrcMap { source: context.generated_code, map }
    }
}

/// Do two optional shared strings hold the same characters?
fn opt_rc_eq(a: &Option<Rc<String>>, b: &Option<Rc<String>>) -> (r: bool)
    ensures
        r == (opt_str_view(a) == opt_str_view(b)),
{
    match (a, b) {
        (None, None) => true,
        (Some(x), Some(y)) => rc_string_borrow(x).eq(rc_string_borrow(y)),
        _ => false,
    }
}

fn opt_pos_eq(a: &Option<(usize, usize)>, b: &Option<(usize, usize)>) -> (r: bool)
    ensures
        r == (opt_pos_view(a) == opt_pos_view(b)),
{
    match (a, b) {
        (None, None) => true,
        (Some(x), Some(y)) => x.0 == y.0 && x.1 == y.1,
        _ => false,
    }
}

fn clone_opt_rc(a: &Option<Rc<String>>) -> (r: Option<Rc<String>>)
    ensures
        r == *a,
{
    match a {
        Some(p) => Some(rc_string_clone(p)),
        None => None,
    }
}

} // verus!
