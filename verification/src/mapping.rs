use vstd::prelude::*;
use std::rc::Rc;
use core::cmp::Ordering;
use crate::rc_string_borrow;

verus! {

/// One record of the position table: a generated (line, column), optionally a
/// source string, an original (line, column) and a name. Lines are 1-based in
/// memory, columns 0-based.
#[derive(Debug, Eq, PartialEq)]
pub struct Mapping {
    // (line, column)
    pub generated: (usize, usize),
    pub source: Option<Rc<String>>,
    pub name: Option<Rc<String>>,
    pub original: Option<(usize, usize)>,
}

impl Clone for Mapping {
    fn clone(&self) -> (r: Self)
        ensures
            r == *self,
    {
        Mapping {
            generated: self.generated,
            source: match &self.source {
                Some(p) => Some(crate::rc_string_clone(p)),
                None => None,
            },
            name: match &self.name {
                Some(p) => Some(crate::rc_string_clone(p)),
                None => None,
            },
            original: self.original,
        }
    }
}

/// The mathematical value of a `Mapping`: positions as integer pairs, strings
/// as character sequences.
pub struct MappingV {
    pub generated: (int, int),
    pub source: Option<Seq<char>>,
    pub name: Option<Seq<char>>,
    pub original: Option<(int, int)>,
}

pub open spec fn opt_str_view(o: &Option<Rc<String>>) -> Option<Seq<char>> {
    match o {
        Some(p) => Some(p@),
        None => None,
    }
}

impl View for Mapping {
    type V = MappingV;

    open spec fn view(&self) -> MappingV {
        MappingV {
            generated: (self.generated.0 as int, self.generated.1 as int),
            source: opt_str_view(&self.source),
            name: opt_str_view(&self.name),
            original: match self.original {
                Some(p) => Some((p.0 as int, p.1 as int)),
                None => None,
            },
        }
    }
}

/// Strict lexicographic order on character sequences, by code point; a proper
/// prefix sorts before the longer sequence. This is the order `String`
/// comparison yields.
pub open spec fn str_lt(a: Seq<char>, b: Seq<char>) -> bool
    decreases a.len(),
{
    if b.len() == 0 {
        false
    } else if a.len() == 0 {
        true
    } else if a[0] != b[0] {
        a[0] < b[0]
    } else {
        str_lt(a.drop_first(), b.drop_first())
    }
}

/// Order on optional strings as the sorter uses it: an absent string sorts
/// after every present one.
pub open spec fn opt_str_lt(a: Option<Seq<char>>, b: Option<Seq<char>>) -> bool {
    match (a, b) {
        (Some(x), Some(y)) => str_lt(x, y),
        (Some(x), None) => true,
        (None, Some(y)) => false,
        (None, None) => false,
    }
}

/// Order on positions: line first, then column.
pub open spec fn pos_lt(a: (int, int), b: (int, int)) -> bool {
    a.0 < b.0 || (a.0 == b.0 && a.1 < b.1)
}

/// Order on optional original positions: here an absent position sorts
/// before every present one, the opposite of `opt_str_lt`.
pub open spec fn opt_pos_lt(a: Option<(int, int)>, b: Option<(int, int)>) -> bool {
    match (a, b) {
        (Some(x), Some(y)) => pos_lt(x, y),
        (Some(x), None) => false,
        (None, Some(y)) => true,
        (None, None) => false,
    }
}

/// The total order on mappings: generated position, then source (absent
/// last), then original position (absent first), then name (absent last).
pub open spec fn mapping_lt(a: MappingV, b: MappingV) -> bool {
    ||| pos_lt(a.generated, b.generated)
    ||| (a.generated == b.generated && {
        ||| opt_str_lt(a.source, b.source)
        ||| (a.source == b.source && {
            ||| opt_pos_lt(a.original, b.original)
            ||| (a.original == b.original && opt_str_lt(a.name, b.name))
        })
    })
}

pub open spec fn mapping_le(a: MappingV, b: MappingV) -> bool {
    mapping_lt(a, b) || a == b
}

/// `str_lt` is a strict total order: of `a < b`, `b < a` and `a == b`
/// exactly one holds, and it is transitive.
pub proof fn lemma_str_lt_props(a: Seq<char>, b: Seq<char>)
    ensures
        str_lt(a, b) || str_lt(b, a) || a == b,
        str_lt(a, b) ==> !str_lt(b, a),
        str_lt(a, b) ==> a != b,
    decreases a.len() + b.len(),
{
    if a.len() == 0 && b.len() == 0 {
        assert(a =~= b);
    } else if a.len() > 0 && b.len() > 0 && a[0] == b[0] {
        lemma_str_lt_props(a.drop_first(), b.drop_first());
        if a.drop_first() == b.drop_first() {
            assert(a.len() == b.len());
            assert forall|i: int| 0 <= i < a.len() implies a[i] == b[i] by {
                if i >= 1 {
                    assert(a[i] == a.drop_first()[i - 1]);
                    assert(b[i] == b.drop_first()[i - 1]);
                }
            }
            assert(a =~= b);
        }
    }
}

pub proof fn lemma_str_lt_trans(a: Seq<char>, b: Seq<char>, c: Seq<char>)
    requires
        str_lt(a, b),
        str_lt(b, c),
    ensures
        str_lt(a, c),
    decreases a.len() + b.len() + c.len(),
{
    if b.len() == 0 {
        // str_lt(a, b) is impossible
    } else if a.len() == 0 {
        // c must be non-empty since str_lt(b, c) and b != empty
    } else if c.len() == 0 {
        // str_lt(b, c) is impossible
    } else {
        if a[0] == b[0] && b[0] == c[0] {
            lemma_str_lt_trans(a.drop_first(), b.drop_first(), c.drop_first());
        }
    }
}

/// If two sequences agree below `i` and differ at `i`, their order is the
/// order of the characters at `i`.
pub proof fn lemma_str_lt_at(a: Seq<char>, b: Seq<char>, i: int)
    requires
        0 <= i < a.len(),
        i < b.len(),
        forall|j: int| 0 <= j < i ==> a[j] == b[j],
        a[i] != b[i],
    ensures
        a[i] < b[i] ==> str_lt(a, b),
        b[i] < a[i] ==> str_lt(b, a),
    decreases i,
{
    if i > 0 {
        assert(a[0] == b[0]);
        assert forall|j: int| 0 <= j < i - 1 implies a.drop_first()[j] == b.drop_first()[j] by {
            assert(a.drop_first()[j] == a[j + 1]);
            assert(b.drop_first()[j] == b[j + 1]);
        }
        assert(a.drop_first()[i - 1] == a[i]);
        assert(b.drop_first()[i - 1] == b[i]);
        lemma_str_lt_at(a.drop_first(), b.drop_first(), i - 1);
    }
}

/// If one sequence is a prefix of the other, the shorter sorts first.
pub proof fn lemma_str_lt_prefix(a: Seq<char>, b: Seq<char>, i: int)
    requires
        0 <= i <= a.len(),
        i <= b.len(),
        i == a.len() || i == b.len(),
        forall|j: int| 0 <= j < i ==> a[j] == b[j],
    ensures
        a.len() == b.len() ==> a == b,
        a.len() < b.len() ==> str_lt(a, b),
        b.len() < a.len() ==> str_lt(b, a),
    decreases i,
{
    if i == 0 {
        if a.len() == b.len() {
            assert(a =~= b);
        }
    } else {
        assert(a[0] == b[0]);
        assert forall|j: int| 0 <= j < i - 1 implies a.drop_first()[j] == b.drop_first()[j] by {
            assert(a.drop_first()[j] == a[j + 1]);
            assert(b.drop_first()[j] == b[j + 1]);
        }
        lemma_str_lt_prefix(a.drop_first(), b.drop_first(), i - 1);
        if a.len() == b.len() {
            assert forall|j: int| 0 <= j < a.len() implies a[j] == b[j] by {
                if j >= 1 {
                    assert(a[j] == a.drop_first()[j - 1]);
                    assert(b[j] == b.drop_first()[j - 1]);
                }
            }
            assert(a =~= b);
        }
    }
}

/// `mapping_lt` is a strict total order on mapping values.
pub proof fn lemma_mapping_order_total(a: MappingV, b: MappingV)
    ensures
        mapping_lt(a, b) || mapping_lt(b, a) || a == b,
        mapping_lt(a, b) ==> !mapping_lt(b, a),
        mapping_lt(a, b) ==> a != b,
{
    match (a.source, b.source) {
        (Some(x), Some(y)) => lemma_str_lt_props(x, y),
        _ => {},
    }
    match (a.name, b.name) {
        (Some(x), Some(y)) => lemma_str_lt_props(x, y),
        _ => {},
    }
}

pub proof fn lemma_mapping_lt_trans(a: MappingV, b: MappingV, c: MappingV)
    requires
        mapping_lt(a, b),
        mapping_lt(b, c),
    ensures
        mapping_lt(a, c),
{
    lemma_mapping_order_total(a, b);
    lemma_mapping_order_total(b, c);
    lemma_mapping_order_total(a, c);
    if a.generated == b.generated && b.generated == c.generated {
        match (a.source, b.source, c.source) {
            (Some(x), Some(y), Some(z)) => {
                lemma_str_lt_props(x, y);
                lemma_str_lt_props(y, z);
                lemma_str_lt_props(x, z);
                if str_lt(x, y) && str_lt(y, z) {
                    lemma_str_lt_trans(x, y, z);
                }
            },
            _ => {},
        }
        if a.source == b.source && b.source == c.source {
            match (a.name, b.name, c.name) {
                (Some(x), Some(y), Some(z)) => {
                    lemma_str_lt_props(x, y);
                    lemma_str_lt_props(y, z);
                    lemma_str_lt_props(x, z);
                    if str_lt(x, y) && str_lt(y, z) {
                        lemma_str_lt_trans(x, y, z);
                    }
                },
                _ => {},
            }
        }
    }
}

pub proof fn lemma_mapping_le_trans(a: MappingV, b: MappingV, c: MappingV)
    requires
        mapping_le(a, b),
        mapping_le(b, c),
    ensures
        mapping_le(a, c),
{
    if mapping_lt(a, b) && mapping_lt(b, c) {
        lemma_mapping_lt_trans(a, b, c);
    }
}

/// Compare two strings in the order `str_lt` describes.
pub fn compare_str(a: &str, b: &str) -> (r: Ordering)
    ensures
        r == Ordering::Less <==> str_lt(a@, b@),
        r == Ordering::Greater <==> str_lt(b@, a@),
        r == Ordering::Equal <==> a@ == b@,
{
    let alen = a.unicode_len();
    let blen = b.unicode_len();
    let mut i: usize = 0;
    loop
        invariant
            i <= alen,
            i <= blen,
            alen == a@.len(),
            blen == b@.len(),
            forall|j: int| 0 <= j < i ==> a@[j] == b@[j],
        decreases alen - i,
    {
        if i == alen || i == blen {
            proof {
                lemma_str_lt_props(a@, b@);
                lemma_str_lt_prefix(a@, b@, i as int);
            }
            if alen == blen {
                return Ordering::Equal;
            } else if alen < blen {
                return Ordering::Less;
            } else {
                return Ordering::Greater;
            }
        }
        let ca = a.get_char(i);
        let cb = b.get_char(i);
        if ca != cb {
            proof {
                lemma_str_lt_props(a@, b@);
                lemma_str_lt_at(a@, b@, i as int);
            }
            if ca < cb {
                return Ordering::Less;
            } else {
                return Ordering::Greater;
            }
        }
        i += 1;
    }
}

/// Compare two optional interned strings; an absent one sorts last.
pub fn strcmp(s1: &Option<Rc<String>>, s2: &Option<Rc<String>>) -> (r: Ordering)
    ensures
        r == Ordering::Less <==> opt_str_lt(opt_str_view(s1), opt_str_view(s2)),
        r == Ordering::Greater <==> opt_str_lt(opt_str_view(s2), opt_str_view(s1)),
        r == Ordering::Equal <==> opt_str_view(s1) == opt_str_view(s2),
{
    match (s1, s2) {
        (None, Some(_)) => Ordering::Greater,
        (Some(_), None) => Ordering::Less,
        (None, None) => Ordering::Equal,
        (Some(a), Some(b)) => compare_str(rc_string_borrow(a).as_str(), rc_string_borrow(b).as_str()),
    }
}

fn compare_pos(a: (usize, usize), b: (usize, usize)) -> (r: Ordering)
    ensures
        r == Ordering::Less <==> pos_lt((a.0 as int, a.1 as int), (b.0 as int, b.1 as int)),
        r == Ordering::Greater <==> pos_lt((b.0 as int, b.1 as int), (a.0 as int, a.1 as int)),
        r == Ordering::Equal <==> (a.0 as int, a.1 as int) == (b.0 as int, b.1 as int),
{
    if a.0 < b.0 {
        Ordering::Less
    } else if a.0 > b.0 {
        Ordering::Greater
    } else if a.1 < b.1 {
        Ordering::Less
    } else if a.1 > b.1 {
        Ordering::Greater
    } else {
        Ordering::Equal
    }
}

fn compare_opt_pos(a: &Option<(usize, usize)>, b: &Option<(usize, usize)>) -> (r: Ordering)
    ensures
        r == Ordering::Less <==> opt_pos_lt(opt_pos_view(a), opt_pos_view(b)),
        r == Ordering::Greater <==> opt_pos_lt(opt_pos_view(b), opt_pos_view(a)),
        r == Ordering::Equal <==> opt_pos_view(a) == opt_pos_view(b),
{
    match (a, b) {
        (None, Some(_)) => Ordering::Less,
        (Some(_), None) => Ordering::Greater,
        (None, None) => Ordering::Equal,
        (Some(x), Some(y)) => compare_pos(*x, *y),
    }
}

pub open spec fn opt_pos_view(o: &Option<(usize, usize)>) -> Option<(int, int)> {
    match o {
        Some(p) => Some((p.0 as int, p.1 as int)),
        None => None,
    }
}

impl Mapping {
    /// The total order of the mappings table, as a three-way comparison.
    pub fn cmp(&self, other: &Mapping) -> (r: Ordering)
        ensures
            r == Ordering::Less <==> mapping_lt(self@, other@),
            r == Ordering::Greater <==> mapping_lt(other@, self@),
            r == Ordering::Equal <==> self@ == other@,
    {
        let c = compare_pos(self.generated, other.generated);
        if !matches!(c, Ordering::Equal) {
            return c;
        }
        let c = strcmp(&self.source, &other.source);
        if !matches!(c, Ordering::Equal) {
            return c;
        }
        let c = compare_opt_pos(&self.original, &other.original);
        if !matches!(c, Ordering::Equal) {
            return c;
        }
        strcmp(&self.name, &other.name)
    }

    pub fn partial_cmp(&self, other: &Mapping) -> (r: Option<Ordering>)
        ensures
            r == Some(self.cmp_spec(other)),
            r matches Some(o) && o == Ordering::Equal <==> self@ == other@,
    {
        proof {
            lemma_mapping_order_total(self@, other@);
        }
        Some(self.cmp(other))
    }

    pub open spec fn cmp_spec(&self, other: &Mapping) -> Ordering {
        if mapping_lt(self@, other@) {
            Ordering::Less
        } else if mapping_lt(other@, self@) {
            Ordering::Greater
        } else {
            Ordering::Equal
        }
    }
}

} // verus!
