//! Weight-ordered arc lists.
//!
//! Both traversals push a vertex's outgoing arcs onto their frontier in
//! ascending weight order, with arcs of equal weight kept in their
//! insertion order. This module provides that ordering as a stable insertion
//! sort, specified by sortedness and multiset preservation.

use vstd::prelude::*;

use crate::graph::Arc;

verus! {

/// The arcs appear in ascending weight order.
pub open spec fn sorted_by_weight(s: Seq<Arc>) -> bool {
    forall|i: int, j: int| 0 <= i < j < s.len() ==> #[trigger] s[i].weight <= #[trigger] s[j].weight
}

/// Inserting an element anywhere in a sequence adds exactly that element to
/// its multiset of entries.
proof fn lemma_insert_to_multiset(s: Seq<Arc>, i: int, a: Arc)
    requires
        0 <= i <= s.len(),
    ensures
        s.insert(i, a).to_multiset() == s.to_multiset().insert(a),
{
    broadcast use vstd::seq_lib::group_to_multiset_ensures;

    let t = s.insert(i, a);
    s.insert_ensures(i, a);
    assert(t.remove(i) =~= s);
    assert(t[i] == a);
    assert(s.to_multiset() == t.to_multiset().remove(a));
    assert(t.contains(a));
    assert(t.to_multiset().count(a) > 0);
    assert forall|x: Arc| #[trigger] t.to_multiset().count(x) == s.to_multiset().insert(a).count(
        x,
    ) by {
        if x == a {
            assert(s.to_multiset().count(a) == t.to_multiset().count(a) - 1);
        } else {
            assert(s.to_multiset().count(x) == t.to_multiset().count(x));
        }
    }
    assert(t.to_multiset() =~= s.to_multiset().insert(a));
}

/// Places `a` after every arc of the sorted sequence `s` whose weight does
/// not exceed `a`'s own, and before every strictly heavier one.
pub open spec fn insert_sorted(s: Seq<Arc>, a: Arc) -> Seq<Arc>
    decreases s.len(),
{
    if s.len() == 0 {
        seq![a]
    } else if s.last().weight > a.weight {
        insert_sorted(s.drop_last(), a).push(s.last())
    } else {
        s.push(a)
    }
}

/// The stable ascending-weight ordering of `s`: each arc in turn is
/// inserted after its equal-weight predecessors.
pub open spec fn sort_arcs(s: Seq<Arc>) -> Seq<Arc>
    decreases s.len(),
{
    if s.len() == 0 {
        Seq::empty()
    } else {
        insert_sorted(sort_arcs(s.drop_last()), s.last())
    }
}

/// Inserting into a sorted sequence lands exactly at the split position
/// between the not-heavier prefix and the strictly heavier suffix.
proof fn lemma_insert_sorted_at(s: Seq<Arc>, a: Arc, j: int)
    requires
        0 <= j <= s.len(),
        forall|k: int| 0 <= k < j ==> (#[trigger] s[k]).weight <= a.weight,
        forall|k: int| j <= k < s.len() ==> a.weight < (#[trigger] s[k]).weight,
    ensures
        insert_sorted(s, a) == s.insert(j, a),
    decreases s.len(),
{
    if s.len() == 0 {
        assert(insert_sorted(s, a) =~= s.insert(0, a));
    } else if j == s.len() {
        assert(s[s.len() - 1].weight <= a.weight);
        assert(insert_sorted(s, a) == s.push(a));
        assert(s.push(a) =~= s.insert(j, a));
    } else {
        assert(a.weight < s[s.len() - 1].weight);
        let short = s.drop_last();
        assert forall|k: int| 0 <= k < j implies (#[trigger] short[k]).weight <= a.weight by {
            assert(short[k] == s[k]);
        }
        assert forall|k: int| j <= k < short.len() implies a.weight < (#[trigger] short[k]).weight by {
            assert(short[k] == s[k]);
        }
        lemma_insert_sorted_at(short, a, j);
        assert(insert_sorted(s, a) == short.insert(j, a).push(s.last()));
        assert(short.insert(j, a).push(s.last()) =~= s.insert(j, a));
    }
}

/// Returns the arcs of `arcs` in ascending weight order. Arcs of equal
/// weight keep their relative insertion order: an arc is inserted after
/// every earlier arc whose weight does not exceed its own — the result is
/// exactly [`sort_arcs`] of the input.
pub fn sorted_arcs(arcs: &Vec<Arc>) -> (r: Vec<Arc>)
    ensures
        r@.len() == arcs@.len(),
        sorted_by_weight(r@),
        r@.to_multiset() == arcs@.to_multiset(),
        r@ == sort_arcs(arcs@),
{
    let mut r: Vec<Arc> = Vec::new();
    let mut idx: usize = 0;
    proof {
        assert(r@ =~= arcs@.subrange(0, 0));
    }
    while idx < arcs.len()
        invariant
            idx <= arcs@.len(),
            r@.len() == idx,
            sorted_by_weight(r@),
            r@.to_multiset() == arcs@.subrange(0, idx as int).to_multiset(),
            r@ == sort_arcs(arcs@.subrange(0, idx as int)),
        decreases arcs@.len() - idx,
    {
        let a = arcs[idx];
        let mut j: usize = r.len();
        while j > 0 && r[j - 1].weight > a.weight
            invariant
                j <= r@.len(),
                sorted_by_weight(r@),
                forall|k: int| j <= k < r@.len() ==> a.weight < #[trigger] r@[k].weight,
            decreases j,
        {
            j -= 1;
        }
        proof {
            let prev = r@;
            assert forall|k: int| 0 <= k < j implies #[trigger] prev[k].weight <= a.weight by {
                assert(prev[j - 1].weight <= a.weight);
                assert(prev[k].weight <= prev[j - 1].weight);
            }
            lemma_insert_sorted_at(prev, a, j as int);
            assert(arcs@.subrange(0, idx + 1).drop_last() =~= arcs@.subrange(0, idx as int));
            assert(arcs@.subrange(0, idx + 1).last() == arcs@[idx as int]);
            assert(sort_arcs(arcs@.subrange(0, idx + 1)) == insert_sorted(
                sort_arcs(arcs@.subrange(0, idx as int)),
                arcs@[idx as int],
            ));
        }
        let ghost prev = r@;
        r.insert(j, a);
        proof {
            prev.insert_ensures(j as int, a);
            assert forall|x: int, y: int|
                0 <= x < y < r@.len() implies #[trigger] r@[x].weight <= #[trigger] r@[y].weight by {
                if x < j && y < j {
                    assert(r@[x] == prev[x] && r@[y] == prev[y]);
                } else if x < j && y == j {
                    assert(r@[x] == prev[x] && r@[y] == a);
                } else if x < j && y > j {
                    assert(r@[x] == prev[x] && r@[y] == prev[y - 1]);
                    assert(prev[x].weight <= a.weight && a.weight < prev[y - 1].weight);
                } else if x == j && y > j {
                    assert(r@[x] == a && r@[y] == prev[y - 1]);
                } else {
                    assert(r@[x] == prev[x - 1] && r@[y] == prev[y - 1]);
                }
            }
            lemma_insert_to_multiset(prev, j as int, a);
            broadcast use vstd::seq_lib::group_to_multiset_ensures;

            assert(arcs@.subrange(0, idx + 1) =~= arcs@.subrange(0, idx as int).push(arcs@[idx as int]));
            assert(arcs@.subrange(0, idx + 1).to_multiset() == arcs@.subrange(
                0,
                idx as int,
            ).to_multiset().insert(a));
        }
        idx += 1;
    }
    proof {
        assert(arcs@.subrange(0, arcs@.len() as int) =~= arcs@);
    }
    r
}

} // verus!
