use vstd::prelude::*;
use vstd::relations::sorted_by;
use vstd::relations::total_ordering;
use crate::mapping::{Mapping, MappingV, mapping_le, mapping_lt, lemma_mapping_order_total, lemma_mapping_le_trans};
use core::cmp::Ordering;

verus! {

/// The mapping values a list of mappings stands for, in order.
pub open spec fn views(s: Seq<Mapping>) -> Seq<MappingV> {
    s.map_values(|m: Mapping| m@)
}

/// The mapping order as a relation, for use with `sorted_by` and `sort_by`.
pub open spec fn mapping_order() -> spec_fn(MappingV, MappingV) -> bool {
    |x: MappingV, y: MappingV| mapping_le(x, y)
}

/// The mapping order is reflexive, antisymmetric, transitive and total.
pub proof fn lemma_mapping_order_is_total_ordering()
    ensures
        total_ordering(mapping_order()),
{
    let r = mapping_order();
    assert forall|x: MappingV, y: MappingV| #[trigger] r(x, y) && #[trigger] r(y, x) implies x
        == y by {
        lemma_mapping_order_total(x, y);
    }
    assert forall|x: MappingV, y: MappingV, z: MappingV| #[trigger] r(x, y) && #[trigger] r(
        y,
        z,
    ) implies r(x, z) by {
        lemma_mapping_le_trans(x, y, z);
    }
    assert forall|x: MappingV, y: MappingV| true implies #[trigger] r(x, y) || #[trigger] r(
        y,
        x,
    ) by {
        lemma_mapping_order_total(x, y);
    }
}

/// Two sequences sorted in the mapping order and holding the same multiset of
/// values are the same sequence: sorting is deterministic.
pub proof fn lemma_sorted_unique(a: Seq<MappingV>, b: Seq<MappingV>)
    requires
        sorted_by(a, mapping_order()),
        sorted_by(b, mapping_order()),
        a.to_multiset() == b.to_multiset(),
    ensures
        a == b,
    decreases a.len(),
{
    broadcast use vstd::seq_lib::group_to_multiset_ensures;

    if a.len() == 0 {
        assert(b.to_multiset().len() == 0);
        assert(a =~= b);
    } else {
        assert(a.to_multiset().len() == a.len());
        assert(b.to_multiset().len() == b.len());
        let x = a[0];
        let y = b[0];
        assert(a.contains(x));
        assert(b.to_multiset().count(x) > 0);
        assert(b.contains(x));
        let bi = choose|bi: int| 0 <= bi < b.len() && b[bi] == x;
        if bi > 0 {
            assert(mapping_order()(b[0], b[bi]));
        }
        assert(b.contains(y)) by {
            assert(b[0] == y);
        }
        assert(a.to_multiset().count(y) > 0);
        assert(a.contains(y));
        let ai = choose|ai: int| 0 <= ai < a.len() && a[ai] == y;
        if ai > 0 {
            assert(mapping_order()(a[0], a[ai]));
        }
        assert(mapping_le(x, y) && mapping_le(y, x));
        assert(x == y) by {
            lemma_mapping_order_total(x, y);
        }
        let a1 = a.drop_first();
        let b1 = b.drop_first();
        assert(a.remove(0) =~= a1);
        assert(b.remove(0) =~= b1);
        assert(a1.to_multiset() =~= a.to_multiset().remove(x));
        assert(b1.to_multiset() =~= b.to_multiset().remove(x));
        assert(sorted_by(a1, mapping_order())) by {
            assert forall|i: int, j: int| 0 <= i < j < a1.len() implies #[trigger] mapping_order()(
                a1[i],
                a1[j],
            ) by {
                assert(a1[i] == a[i + 1]);
                assert(a1[j] == a[j + 1]);
            }
        }
        assert(sorted_by(b1, mapping_order())) by {
            assert forall|i: int, j: int| 0 <= i < j < b1.len() implies #[trigger] mapping_order()(
                b1[i],
                b1[j],
            ) by {
                assert(b1[i] == b[i + 1]);
                assert(b1[j] == b[j + 1]);
            }
        }
        lemma_sorted_unique(a1, b1);
        assert forall|i: int| 0 <= i < a.len() implies a[i] == b[i] by {
            if i >= 1 {
                assert(a[i] == a1[i - 1]);
                assert(b[i] == b1[i - 1]);
            }
        }
        assert(a =~= b);
    }
}

/// Order: a sorted buffer is in ascending mapping order, and strictly
/// ascending wherever two entries differ.
pub proof fn lemma_sorted_strictly_ascending(l: Seq<MappingV>)
    requires
        sorted_by(l, mapping_order()),
    ensures
        forall|i: int, j: int| 0 <= i < j < l.len() ==> mapping_le(#[trigger] l[i], #[trigger] l[j]),
        forall|i: int, j: int|
            0 <= i < j < l.len() && l[i] != l[j] ==> mapping_lt(#[trigger] l[i], #[trigger] l[j]),
{
    assert forall|i: int, j: int| 0 <= i < j < l.len() implies mapping_le(
        #[trigger] l[i],
        #[trigger] l[j],
    ) by {
        assert(mapping_order()(l[i], l[j]));
    }
}

/// The append-ordered buffer of mappings with sort-on-demand.
#[derive(Debug)]
pub struct MappingList {
    pub list: Vec<Mapping>,
}

impl MappingList {
    pub fn new() -> (r: MappingList)
        ensures
            r.list@.len() == 0,
    {
        MappingList { list: Vec::new() }
    }

    /// Appends; never reorders what is already there.
    pub fn add(&mut self, mapping: Mapping)
        ensures
            final(self).list@ == old(self).list@.push(mapping),
    {
        self.list.push(mapping);
    }

    /// Brings the buffer into the total mapping order. The result is exactly
    /// the (deterministic) sorted permutation of the old contents.
    pub fn sort(&mut self)
        ensures
            views(final(self).list@) == views(old(self).list@).sort_by(mapping_order()),
            sorted_by(views(final(self).list@), mapping_order()),
            views(final(self).list@).to_multiset() == views(old(self).list@).to_multiset(),
    {
        broadcast use vstd::seq_lib::group_to_multiset_ensures;

        let ghost orig = views(self.list@);
        let mut out: Vec<Mapping> = Vec::new();
        let mut k: usize = 0;
        proof {
            assert(views(self.list@).take(0) =~= Seq::<MappingV>::empty());
            assert(views(out@) =~= Seq::<MappingV>::empty());
            assert(views(out@).to_multiset() =~= views(self.list@).take(0).to_multiset());
        }
        while k < self.list.len()
            invariant
                k <= self.list@.len(),
                sorted_by(views(out@), mapping_order()),
                views(out@).to_multiset() == views(self.list@).take(k as int).to_multiset(),
            decreases self.list@.len() - k,
        {
            let m = self.list[k].clone();
            let p = insert_pos(&out, &m);
            let ghost ov = views(out@);
            let ghost taken = views(self.list@).take(k as int);
            out.insert(p, m);
            proof {
                broadcast use vstd::seq_lib::group_to_multiset_ensures;
                let nv = views(out@);
                assert(nv =~= ov.insert(p as int, m@)) by {
                    assert(forall|j: int|
                        0 <= j < nv.len() ==> nv[j] == #[trigger] out@[j]@);
                }
                lemma_insert_sorted(ov, m@, p as int);
                lemma_insert_multiset(ov, m@, p as int);
                assert(views(self.list@).take(k + 1) =~= taken.push(m@)) by {
                    assert(views(self.list@)[k as int] == m@);
                }
                assert(taken.push(m@).to_multiset() =~= taken.to_multiset().insert(m@));
                assert(nv.to_multiset() == ov.insert(p as int, m@).to_multiset());
                assert(views(self.list@).take(k + 1).to_multiset() == taken.to_multiset().insert(
                    m@,
                ));
            }
            k += 1;
        }
        proof {
            assert(views(self.list@).take(self.list@.len() as int) =~= views(self.list@));
        }
        self.list = out;
        proof {
            lemma_mapping_order_is_total_ordering();
            orig.lemma_sort_by_ensures(mapping_order());
            lemma_sorted_unique(views(self.list@), orig.sort_by(mapping_order()));
        }
    }
}

/// Inserting a value at the position where everything before it is `le` and
/// it is `lt` everything after keeps the sequence sorted.
proof fn lemma_insert_sorted(s: Seq<MappingV>, x: MappingV, p: int)
    requires
        0 <= p <= s.len(),
        sorted_by(s, mapping_order()),
        forall|j: int| 0 <= j < p ==> mapping_le(#[trigger] s[j], x),
        p < s.len() ==> mapping_lt(x, s[p]),
    ensures
        sorted_by(s.insert(p, x), mapping_order()),
{
    let t = s.insert(p, x);
    assert forall|i: int, j: int| 0 <= i < j < t.len() implies #[trigger] mapping_order()(
        t[i],
        t[j],
    ) by {
        lemma_mapping_order_total(x, if j > p { t[j] } else { t[i] });
        if i < p && j < p {
            assert(t[i] == s[i] && t[j] == s[j]);
        } else if i < p && j == p {
            assert(t[i] == s[i] && t[j] == x);
        } else if i < p && j > p {
            assert(t[i] == s[i] && t[j] == s[j - 1]);
        } else if i == p && j > p {
            assert(t[i] == x && t[j] == s[j - 1]);
            lemma_mapping_order_total(s[p], x);
            if j - 1 > p {
                assert(mapping_order()(s[p], s[j - 1]));
                lemma_mapping_le_trans(x, s[p], s[j - 1]);
            }
        } else {
            assert(t[i] == s[i - 1] && t[j] == s[j - 1]);
        }
    }
}

proof fn lemma_insert_multiset(s: Seq<MappingV>, x: MappingV, p: int)
    requires
        0 <= p <= s.len(),
    ensures
        s.insert(p, x).to_multiset() == s.to_multiset().insert(x),
    decreases p,
{
    broadcast use vstd::seq_lib::group_to_multiset_ensures;

    let t = s.insert(p, x);
    assert(t.remove(p) =~= s);
    assert(t.remove(p).to_multiset() =~= t.to_multiset().remove(t[p]));
    assert(t[p] == x);
    assert(t.contains(x)) by {
        assert(t[p] == x);
    }
    assert(t.to_multiset().count(x) > 0);
    assert(t.to_multiset() =~= s.to_multiset().insert(x)) by {
        assert forall|e: MappingV| true implies t.to_multiset().count(e) == s.to_multiset().insert(
            x,
        ).count(e) by {
            assert(s.to_multiset() == t.to_multiset().remove(x));
        }
    }
}

/// The position at which `m` belongs in the sorted buffer: everything before
/// it is `le` it, and it is strictly before what follows.
fn insert_pos(out: &Vec<Mapping>, m: &Mapping) -> (p: usize)
    ensures
        p <= out@.len(),
        forall|j: int| 0 <= j < p ==> mapping_le(#[trigger] views(out@)[j], m@),
        p < out@.len() ==> mapping_lt(m@, views(out@)[p as int]),
{
    let mut p: usize = 0;
    while p < out.len()
        invariant
            p <= out@.len(),
            forall|j: int| 0 <= j < p ==> mapping_le(#[trigger] views(out@)[j], m@),
        decreases out@.len() - p,
    {
        let c = m.cmp(&out[p]);
        proof {
            lemma_mapping_order_total(m@, out@[p as int]@);
            assert(views(out@)[p as int] == out@[p as int]@);
        }
        if matches!(c, Ordering::Less) {
            return p;
        }
        p += 1;
    }
    p
}

} // verus!
