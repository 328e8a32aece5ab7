use vstd::prelude::*;

verus! {

/// The JSON-ready source-map envelope: `version` is always 3; `sources`,
/// `names` and `sources_content` are listed in table order; `mappings` holds
/// the Base64 VLQ position table.
#[derive(Debug, Clone, PartialEq)]
pub struct SrcMap {
    pub version: i32,
    pub file: Option<String>,
    pub source_root: Option<String>,
    pub sources: Vec<String>,
    pub sources_content: Vec<String>,
    pub names: Vec<String>,
    pub mappings: String,
}

/// What a tree walk returns: the concatenated generated text and its map.
#[derive(Debug, PartialEq)]
pub struct StringWithSrcMap {
    pub source: String,
    pub map: SrcMap,
}

/// The character sequences a vector of strings holds, in order.
pub open spec fn str_views(s: Seq<String>) -> Seq<Seq<char>> {
    s.map_values(|x: String| x@)
}

/// The view of an optional string.
pub open spec fn opt_string_view(o: &Option<String>) -> Option<Seq<char>> {
    match o {
        Some(s) => Some(s@),
        None => None,
    }
}

} // verus!
