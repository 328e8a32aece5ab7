use vstd::prelude::*;
use std::rc::Rc;

mod from_source_map;
mod mapping;
mod mapping_list;
mod source_map;
mod source_node;
mod source_map_generator;
mod vlq_codec;

pub use from_source_map::ParsedOriginal;
pub use from_source_map::ParsedSegment;
pub use from_source_map::wire_parse;
pub use from_source_map::dedup_spec;
pub use from_source_map::remove_dup;
pub use from_source_map::seg_mapping;
pub use from_source_map::seg_mappings;
pub use from_source_map::seg_ok;
pub use from_source_map::segs_ok;
pub use from_source_map::intern_sources_from;
pub use from_source_map::intern_names_from;
pub use from_source_map::replay_contents_from;
pub use from_source_map::assoc_map;
pub use from_source_map::from_source_map;
pub use mapping::Mapping;
pub use mapping::MappingV;
pub use mapping::strcmp;
pub use mapping::compare_str;
pub use mapping::str_lt;
pub use mapping::opt_str_lt;
pub use mapping::pos_lt;
pub use mapping::opt_pos_lt;
pub use mapping::mapping_lt;
pub use mapping::mapping_le;
pub use mapping::opt_str_view;
pub use mapping::opt_pos_view;
pub use mapping_list::MappingList;
pub use mapping_list::views;
pub use mapping_list::mapping_order;
pub use mapping_list::lemma_sorted_unique;
pub use mapping_list::lemma_mapping_order_is_total_ordering;
pub use mapping_list::lemma_sorted_strictly_ascending;
pub use source_map_generator::SourceMapGenerator;
pub use source_map_generator::lemma_index_stability;
pub use source_map_generator::lemma_deterministic_encoding;
pub use source_map_generator::lemma_contents_of_len;
pub use source_map_generator::contents_of;
pub use source_map_generator::serialize_spec;
pub use source_map_generator::serializable_mapping;
pub use source_map_generator::encode_segment;
pub use source_map_generator::encode_upto;
pub use source_map_generator::EncState;
pub use source_map_generator::init_enc_state;
pub use source_map_generator::semis;
pub use source_map_generator::idx_of;
pub use source_map::SrcMap;
pub use source_map::StringWithSrcMap;
pub use source_map::str_views;
pub use source_map::opt_string_view;
pub use source_node::Node;
pub use source_node::SourceNode;
pub use source_node::GenV;
pub use source_node::WalkV;
pub use source_node::pair_views;
pub use source_node::gen_add;
pub use source_node::gen_set_content;
pub use source_node::emit;
pub use source_node::scan_from;
pub use source_node::process_chunk_spec;
pub use source_node::walk_sn_spec;
pub use source_node::walk_children_from;
pub use source_node::contents_fold_from;
pub use source_node::node_text_len;
pub use source_node::seq_text_len;
pub use source_node::sn_text_len;
pub use source_node::node_weight;
pub use source_node::seq_weight;
pub use source_node::sn_weight;
pub use source_node::sn_ann_ok;
pub use source_node::node_wf;
pub use source_node::seq_wf;
pub use source_node::sn_wf;
pub use source_node::added_child;
pub use source_map_generator::relative;
pub use source_map_generator::relative_spec;
pub use source_map_generator::valid_mapping;
pub use source_map_generator::coord_ok;
pub use source_map_generator::mapping_coords_ok;
pub use source_map_generator::distinct_strs;
pub use source_map_generator::intern_spec;
pub use source_map_generator::rc_str_views;
pub use source_map_generator::assoc_get;
pub use source_map_generator::assoc_keys_distinct;
pub use vlq_codec::vlq_encode_spec;
pub use vlq_codec::vlq_digits;
pub use vlq_codec::vlq_value_bits;
pub use vlq_codec::base64_char;

verus! {

/// A string handle: either an owned string or a shared, reference-counted one.
/// Interned source and name strings are passed around as `StringPtr` so that a
/// caller may hand the same allocation to several tables.
#[derive(Clone)]
pub enum StringPtr {
    Str(String),
    Ptr(Rc<String>),
}

impl View for StringPtr {
    type V = Seq<char>;

    open spec fn view(&self) -> Seq<char> {
        match self {
            StringPtr::Str(s) => s@,
            StringPtr::Ptr(p) => p@,
        }
    }
}

/// Relies on std's `Rc`: dereferencing borrows the value the `Rc` holds.
#[verifier::external_body]
pub(crate) fn rc_string_borrow(p: &Rc<String>) -> (r: &String)
    ensures
        *r == **p,
{
    &**p
}

/// Relies on std's `Rc::clone`: the clone is a handle to the same value.
#[verifier::external_body]
pub(crate) fn rc_string_clone(p: &Rc<String>) -> (r: Rc<String>)
    ensures
        r == *p,
{
    Rc::clone(p)
}

impl StringPtr {
    pub fn to_ptr(self) -> (r: Rc<String>)
        ensures
            r@ == self@,
    {
        match self {
            StringPtr::Str(s) => Rc::new(s),
            StringPtr::Ptr(p) => p,
        }
    }

    pub fn get(&self) -> (r: &str)
        ensures
            r@ == self@,
    {
        match self {
            StringPtr::Str(s) => s.as_str(),
            StringPtr::Ptr(p) => rc_string_borrow(p).as_str(),
        }
    }
}

/// The two failures the library reports: a mapping whose shape breaks the
/// validation rule, and corrupt input handed to the reader.
#[derive(Clone, Copy, Debug, PartialEq, Eq, Structural)]
pub enum SrcMapError {
    InvalidMapping,
    MalformedInput,
}

} // verus!
