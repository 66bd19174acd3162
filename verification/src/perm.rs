//! Sequence and multiset helpers shared by the builder and the query
//! engine: filtering commutes with `to_multiset`, filtering keeps
//! distinctness, and mapping indices preserves multiset equality.

use vstd::prelude::*;
use vstd::multiset::Multiset;
use crate::tree::Item;

verus! {

broadcast use vstd::seq_lib::group_seq_properties;

/// The items selected from `ins` by an index sequence, in index order.
pub open spec fn map_idx(ins: Seq<Item>, idx: Seq<usize>) -> Seq<Item> {
    idx.map_values(|j: usize| ins[j as int])
}

/// Every index in `idx` is below `n`.
pub open spec fn idx_ok(idx: Seq<usize>, n: nat) -> bool {
    forall|k: int| 0 <= k < idx.len() ==> (idx[k] as nat) < n
}

/// The index sequence holds the (mathematical) index `i`.
pub open spec fn idx_has(idx: Seq<usize>, i: int) -> bool {
    exists|t: int| 0 <= t < idx.len() && (#[trigger] idx[t]) as int == i
}

/// The matched flags after a child claims the indices in `idx`: each
/// flag already set stays set, and the claimed ones become set.
pub open spec fn merge_marks(m: Seq<bool>, idx: Seq<usize>) -> Seq<bool> {
    Seq::new(m.len(), |i: int| m[i] || idx_has(idx, i))
}

/// Count of an element in a filtered sequence: the original count when
/// the predicate holds for it, zero otherwise.
pub proof fn lemma_filter_count<A>(s: Seq<A>, p: spec_fn(A) -> bool, e: A)
    ensures
        s.filter(p).to_multiset().count(e) == if p(e) {
            s.to_multiset().count(e)
        } else {
            0
        },
    decreases s.len(),
{
    broadcast use vstd::seq_lib::group_to_multiset_ensures;

    if s.len() == 0 {
        assert(s.filter(p) =~= Seq::<A>::empty());
        assert(s.to_multiset() =~= Multiset::<A>::empty());
        assert(s.filter(p).to_multiset() =~= Multiset::<A>::empty());
    } else {
        let s0 = s.drop_last();
        let x = s.last();
        lemma_filter_count(s0, p, e);
        assert(s =~= s0.push(x));
        s0.lemma_filter_push(x, p);
        assert(s0.push(x).to_multiset() =~= s0.to_multiset().insert(x));
        if p(x) {
            assert(s.filter(p) =~= s0.filter(p).push(x));
            assert(s.filter(p).to_multiset() =~= s0.filter(p).to_multiset().insert(x));
        } else {
            assert(s.filter(p) =~= s0.filter(p));
        }
    }
}

/// Filtering a duplicate-free sequence yields a duplicate-free sequence.
pub proof fn lemma_filter_no_dup<A>(s: Seq<A>, p: spec_fn(A) -> bool)
    requires
        s.no_duplicates(),
    ensures
        s.filter(p).no_duplicates(),
{
    broadcast use vstd::seq_lib::group_to_multiset_ensures;

    s.lemma_multiset_has_no_duplicates();
    assert forall|e: A| s.filter(p).to_multiset().contains(e) implies s.filter(
        p,
    ).to_multiset().count(e) == 1 by {
        lemma_filter_count(s, p, e);
        assert(s.to_multiset().count(e) >= 1);
        assert(s.to_multiset().contains(e));
    }
    s.filter(p).lemma_multiset_has_no_duplicates_conv();
}

/// Two index sequences with equal multisets select equal item multisets.
pub proof fn lemma_map_idx_multiset(ins: Seq<Item>, g1: Seq<usize>, g2: Seq<usize>)
    requires
        g1.to_multiset() == g2.to_multiset(),
    ensures
        map_idx(ins, g1).to_multiset() == map_idx(ins, g2).to_multiset(),
    decreases g1.len(),
{
    broadcast use vstd::seq_lib::group_to_multiset_ensures;

    vstd::seq_lib::to_multiset_len(g1);
    vstd::seq_lib::to_multiset_len(g2);
    if g1.len() == 0 {
        assert(map_idx(ins, g1) =~= Seq::<Item>::empty());
        assert(map_idx(ins, g2) =~= Seq::<Item>::empty());
    } else {
        let x = g1.last();
        let h1 = g1.drop_last();
        assert(g1 =~= h1.push(x));
        assert(g1.to_multiset().contains(x));
        assert(g2.to_multiset().contains(x));
        assert(g2.contains(x));
        let i = choose|i: int| 0 <= i < g2.len() && g2[i] == x;
        let h2 = g2.remove(i);
        vstd::seq_lib::to_multiset_remove(g2, i);
        assert(h1.to_multiset() =~= h2.to_multiset()) by {
            assert(h1.push(x).to_multiset() =~= h1.to_multiset().insert(x));
            assert(g1.to_multiset() == h1.to_multiset().insert(x));
            assert forall|e: usize| true implies h1.to_multiset().count(e) == h2.to_multiset().count(
                e,
            ) by {
                if e == x {
                    assert(h1.to_multiset().insert(x).count(x) == h1.to_multiset().count(x) + 1);
                    assert(h2.to_multiset().count(x) == g2.to_multiset().count(x) - 1);
                } else {
                    assert(h1.to_multiset().insert(x).count(e) == h1.to_multiset().count(e));
                    assert(h2.to_multiset().count(e) == g2.to_multiset().count(e));
                }
            }
        }
        lemma_map_idx_multiset(ins, h1, h2);
        assert(map_idx(ins, g1) =~= map_idx(ins, h1).push(ins[x as int]));
        assert(map_idx(ins, g1).to_multiset() =~= map_idx(ins, h1).to_multiset().insert(
            ins[x as int],
        ));
        assert(map_idx(ins, h2) =~= map_idx(ins, g2).remove(i));
        vstd::seq_lib::to_multiset_remove(map_idx(ins, g2), i);
        assert(map_idx(ins, g2)[i] == ins[x as int]);
        assert(map_idx(ins, g2).remove(i).to_multiset() == map_idx(ins, g2).to_multiset().remove(
            ins[x as int],
        ));
        assert(map_idx(ins, g2).to_multiset().contains(ins[x as int])) by {
            assert(map_idx(ins, g2)[i] == ins[x as int]);
            assert(map_idx(ins, g2).contains(ins[x as int]));
        }
        assert forall|e: Item| true implies map_idx(ins, g1).to_multiset().count(e) == map_idx(
            ins,
            g2,
        ).to_multiset().count(e) by {
            if e == ins[x as int] {
            } else {
            }
        }
        assert(map_idx(ins, g1).to_multiset() =~= map_idx(ins, g2).to_multiset());
    }
}

/// Swapping two positions leaves a sequence's multiset unchanged.
pub proof fn lemma_swap_ms(s: Seq<usize>, i: int, j: int)
    requires
        0 <= i < s.len(),
        0 <= j < s.len(),
    ensures
        s.update(i, s[j]).update(j, s[i]).to_multiset() == s.to_multiset(),
{
    broadcast use vstd::seq_lib::group_to_multiset_ensures;
    broadcast use vstd::multiset::group_multiset_axioms;
    broadcast use vstd::seq_lib::to_multiset_update;

    if i == j {
        assert(s.update(i, s[j]).update(j, s[i]) =~= s);
    } else {
        let s1 = s.update(i, s[j]);
        assert(s1[j] == s[j]);
        assert(s1.update(j, s[i]).to_multiset() =~= s.to_multiset());
    }
}

/// Mapping indices distributes over concatenation.
pub proof fn lemma_map_idx_add(ins: Seq<Item>, a: Seq<usize>, b: Seq<usize>)
    ensures
        map_idx(ins, a + b) =~= map_idx(ins, a) + map_idx(ins, b),
{
}

/// The multiset of a concatenation is the sum of the parts' multisets.
pub proof fn lemma_ms_add(a: Seq<Item>, b: Seq<Item>)
    ensures
        (a + b).to_multiset() == a.to_multiset().add(b.to_multiset()),
{
    vstd::seq_lib::lemma_multiset_commutative(a, b);
}

} // verus!
