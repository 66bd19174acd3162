//! The immutable two-dimensional search tree: data model, builder,
//! enumeration and merging.
//!
//! A tree interleaves *pivots* (axis separators), *intersection buckets*
//! (children holding items that touch a pivot) and *partition children*
//! (children holding items strictly between or beyond pivots).  Levels
//! alternate the axis they partition on.

use vstd::prelude::*;
use vstd::multiset::Multiset;
use crate::coord::{Coord, lo, hi, coord_wf, touches, coord_matches, intersect_pivot,
    intersect_coord, coord_lo, coord_hi, coord_min, coord_max, find_separation};
use crate::perm::{map_idx, idx_ok, idx_has, merge_marks, lemma_filter_count,
    lemma_filter_no_dup, lemma_map_idx_multiset, lemma_map_idx_add, lemma_ms_add};
use crate::Location;

verus! {

broadcast use vstd::multiset::group_multiset_axioms;

/// Identifier of a tree stored externally, referenced by a `Node::Ref`.
pub type TreeRef = u64;

/// One stored row: a two-dimensional point (or box), its payload value,
/// and the physical location assigned when it was inserted.
#[derive(Clone, Copy, Debug, PartialEq, Eq)]
pub struct Item {
    pub point: (Coord, Coord),
    pub value: u32,
    pub loc: Location,
}

/// A tree node: an interior branch, a leaf list, or a lazy reference to
/// an externally stored tree.
#[derive(Debug)]
pub enum Node {
    Branch(Branch),
    Data(Vec<Item>),
    Ref(TreeRef),
}

/// An interior node partitioning one axis: `pivots` separate the axis,
/// `intersections[k]` holds items touching `pivots[k]`, and `nodes`
/// holds the partition children (below, between, above the pivots).
#[derive(Debug)]
pub struct Branch {
    pub pivots: Vec<i64>,
    pub intersections: Vec<Node>,
    pub nodes: Vec<Node>,
}

/// An immutable tree: root node, component-wise bounds
/// `(min x, min y, max x, max y)` over its items, and its item count.
#[derive(Debug)]
pub struct Tree {
    pub root: Node,
    pub bounds: (i64, i64, i64, i64),
    pub count: usize,
}

/// The coordinate of an item on the given axis (`0` is x, `1` is y).
pub open spec fn axis_coord(it: Item, ax: int) -> Coord {
    if ax == 0 {
        it.point.0
    } else {
        it.point.1
    }
}

/// Both coordinates of the item are well-formed intervals.
pub open spec fn item_wf(it: Item) -> bool {
    coord_wf(it.point.0) && coord_wf(it.point.1)
}

/// All items stored in the leaves of a subtree, in enumeration order
/// (intersection buckets first, then partition children).
pub open spec fn node_items(n: Node) -> Seq<Item>
    decreases n,
{
    match n {
        Node::Data(items) => items@,
        Node::Ref(_) => Seq::<Item>::empty(),
        Node::Branch(b) => nodes_items(b.intersections@) + nodes_items(b.nodes@),
    }
}

/// Items of a sequence of sibling subtrees, concatenated in order.
pub open spec fn nodes_items(s: Seq<Node>) -> Seq<Item>
    decreases s,
{
    if s.len() == 0 {
        Seq::<Item>::empty()
    } else {
        node_items(s[0]) + nodes_items(s.drop_first())
    }
}

/// External tree references reachable in a subtree, in enumeration order.
pub open spec fn node_refs(n: Node) -> Seq<TreeRef>
    decreases n,
{
    match n {
        Node::Data(_) => Seq::<TreeRef>::empty(),
        Node::Ref(r) => seq![r],
        Node::Branch(b) => nodes_refs(b.intersections@) + nodes_refs(b.nodes@),
    }
}

/// References of a sequence of sibling subtrees, concatenated in order.
pub open spec fn nodes_refs(s: Seq<Node>) -> Seq<TreeRef>
    decreases s,
{
    if s.len() == 0 {
        Seq::<TreeRef>::empty()
    } else {
        node_refs(s[0]) + nodes_refs(s.drop_first())
    }
}

/// Structural well-formedness: every branch has at least one pivot, one
/// intersection bucket per pivot, and one partition child more than
/// pivots.
pub open spec fn wf_shape(n: Node) -> bool
    decreases n,
{
    match n {
        Node::Data(_) => true,
        Node::Ref(_) => true,
        Node::Branch(b) => b.pivots@.len() >= 1 && b.intersections@.len() == b.pivots@.len()
            && b.nodes@.len() == b.pivots@.len() + 1 && (forall|i: int|
            0 <= i < b.intersections@.len() ==> wf_shape(#[trigger] b.intersections@[i])) && (
        forall|i: int| 0 <= i < b.nodes@.len() ==> wf_shape(#[trigger] b.nodes@[i])),
    }
}

/// Placement well-formedness on the axis `ax` partitioned by this level:
/// items of bucket `k` touch `pivots[k]`; items of the first partition
/// child lie entirely below the first pivot; items of a middle child lie
/// strictly inside their slab; items of the last child lie entirely
/// above the last pivot.  Children alternate to the other axis.
pub open spec fn wf_place(n: Node, ax: int) -> bool
    decreases n,
{
    match n {
        Node::Data(_) => true,
        Node::Ref(_) => true,
        Node::Branch(b) => {
            let p = b.pivots@;
            let m = p.len() as int;
            &&& b.intersections@.len() == m
            &&& b.nodes@.len() == m + 1
            &&& m >= 1
            &&& (forall|k: int, it: Item|
                0 <= k < m && #[trigger] node_items(b.intersections@[k]).contains(it) ==> touches(
                    axis_coord(it, ax),
                    p[k] as int,
                ))
            &&& (forall|it: Item|
                node_items(b.nodes@[0]).contains(it) ==> hi(axis_coord(it, ax)) < p[0] as int)
            &&& (forall|k: int, it: Item|
                1 <= k < m && #[trigger] node_items(b.nodes@[k]).contains(it) ==> ((p[k - 1] as int)
                    < lo(axis_coord(it, ax)) && hi(axis_coord(it, ax)) < (p[k] as int)))
            &&& (forall|it: Item|
                node_items(b.nodes@[m]).contains(it) ==> lo(axis_coord(it, ax)) > p[m - 1] as int)
            &&& (forall|i: int|
                0 <= i < m ==> wf_place(#[trigger] b.intersections@[i], 1 - ax))
            &&& (forall|i: int| 0 <= i <= m ==> wf_place(#[trigger] b.nodes@[i], 1 - ax))
        },
    }
}

/// Appending a sibling appends its items to the enumeration.
pub proof fn lemma_nodes_items_push(s: Seq<Node>, c: Node)
    ensures
        nodes_items(s.push(c)) == nodes_items(s) + node_items(c),
    decreases s.len(),
{
    if s.len() == 0 {
        assert(s.push(c).drop_first() =~= Seq::<Node>::empty());
        assert(s.push(c)[0] == c);
        assert(nodes_items(s.push(c)) == node_items(c) + nodes_items(Seq::<Node>::empty()));
        assert(nodes_items(s.push(c)) =~= nodes_items(s) + node_items(c));
    } else {
        assert(s.push(c).drop_first() =~= s.drop_first().push(c));
        assert(s.push(c)[0] == s[0]);
        lemma_nodes_items_push(s.drop_first(), c);
        assert(nodes_items(s.push(c)) == node_items(s[0]) + (nodes_items(s.drop_first())
            + node_items(c)));
        assert(nodes_items(s.push(c)) =~= nodes_items(s) + node_items(c));
    }
}

/// Appending a sibling appends its references to the enumeration.
pub proof fn lemma_nodes_refs_push(s: Seq<Node>, c: Node)
    ensures
        nodes_refs(s.push(c)) == nodes_refs(s) + node_refs(c),
    decreases s.len(),
{
    if s.len() == 0 {
        assert(s.push(c).drop_first() =~= Seq::<Node>::empty());
        assert(s.push(c)[0] == c);
        assert(nodes_refs(s.push(c)) == node_refs(c) + nodes_refs(Seq::<Node>::empty()));
        assert(nodes_refs(s.push(c)) =~= nodes_refs(s) + node_refs(c));
    } else {
        assert(s.push(c).drop_first() =~= s.drop_first().push(c));
        assert(s.push(c)[0] == s[0]);
        lemma_nodes_refs_push(s.drop_first(), c);
        assert(nodes_refs(s.push(c)) == node_refs(s[0]) + (nodes_refs(s.drop_first()) + node_refs(
            c,
        )));
        assert(nodes_refs(s.push(c)) =~= nodes_refs(s) + node_refs(c));
    }
}

/// Selector for one child of a branch under construction: items touching
/// a pivot, entirely below the first pivot, overlapping a slab, or
/// above the last pivot.
#[derive(Clone, Copy, Debug)]
pub enum Sel {
    Touch(i64),
    Below(i64),
    Slab(i64, i64),
    Above(i64),
}

/// Does the selector accept this axis coordinate?
pub open spec fn sel_hit(sel: Sel, c: Coord) -> bool {
    match sel {
        Sel::Touch(p) => touches(c, p as int),
        Sel::Below(p) => lo(c) < p as int,
        Sel::Slab(s, e) => coord_matches(c, s as int, e as int),
        Sel::Above(p) => lo(c) > p as int,
    }
}

/// The index predicate applied when filtering a sorted index list for
/// one child: not yet matched, and the selector accepts the item's
/// coordinate on the split axis.
pub open spec fn sel_pred(sel: Sel, ins: Seq<Item>, matched: Seq<bool>, ax: int) -> spec_fn(
    usize,
) -> bool {
    |j: usize| !matched[j as int] && sel_hit(sel, axis_coord(ins[j as int], ax))
}

/// The item's coordinate on the given axis.
fn axis_of(it: &Item, ax: usize) -> (c: Coord)
    requires
        ax < 2,
    ensures
        c == axis_coord(*it, ax as int),
{
    if ax == 0 {
        it.point.0
    } else {
        it.point.1
    }
}

/// Does the selector accept this coordinate?
fn sel_test(sel: &Sel, c: &Coord) -> (r: bool)
    ensures
        r == sel_hit(*sel, *c),
{
    match sel {
        Sel::Touch(p) => intersect_pivot(c, *p),
        Sel::Below(p) => coord_lo(c) < *p,
        Sel::Slab(s, e) => intersect_coord(c, *s, *e),
        Sel::Above(p) => coord_lo(c) > *p,
    }
}

/// Keep the indices of unmatched items whose coordinate on axis `ax`
/// the selector accepts, preserving order.
fn filter_idx(inserts: &Vec<Item>, idx: &Vec<usize>, matched: &Vec<bool>, ax: usize, sel: &Sel) -> (
    r: Vec<usize>)
    requires
        ax < 2,
        matched@.len() == inserts@.len(),
        idx_ok(idx@, inserts@.len() as nat),
    ensures
        r@ == idx@.filter(sel_pred(*sel, inserts@, matched@, ax as int)),
{
    let ghost pred = sel_pred(*sel, inserts@, matched@, ax as int);
    let mut r: Vec<usize> = Vec::new();
    let mut k: usize = 0;
    proof {
        assert(idx@.take(0) =~= Seq::<usize>::empty());
        assert(idx@.take(0).filter(pred) =~= Seq::<usize>::empty());
    }
    while k < idx.len()
        invariant
            k <= idx@.len(),
            ax < 2,
            matched@.len() == inserts@.len(),
            idx_ok(idx@, inserts@.len() as nat),
            pred == sel_pred(*sel, inserts@, matched@, ax as int),
            r@ == idx@.take(k as int).filter(pred),
        decreases idx@.len() - k,
    {
        let j = idx[k];
        let it = inserts[j];
        let c = axis_of(&it, ax);
        proof {
            assert(idx@.take(k + 1) =~= idx@.take(k as int).push(j));
            idx@.take(k as int).lemma_filter_push(j, pred);
        }
        if !matched[j] && sel_test(sel, &c) {
            r.push(j);
        }
        k += 1;
    }
    proof {
        assert(idx@.take(idx@.len() as int) =~= idx@);
    }
    r
}

/// Build a leaf holding the selected items in index order, marking each
/// index as matched.
fn make_leaf(inserts: &Vec<Item>, idx: &Vec<usize>, matched: &mut Vec<bool>) -> (n: Node)
    requires
        old(matched)@.len() == inserts@.len(),
        idx_ok(idx@, inserts@.len() as nat),
    ensures
        final(matched)@ == merge_marks(old(matched)@, idx@),
        node_items(n) == map_idx(inserts@, idx@),
        n is Data,
        wf_shape(n),
        forall|ax: int| wf_place(n, ax),
{
    let mut items: Vec<Item> = Vec::new();
    let mut k: usize = 0;
    proof {
        assert(items@ =~= map_idx(inserts@, idx@.take(0)));
        assert(matched@ =~= merge_marks(old(matched)@, idx@.take(0)));
    }
    while k < idx.len()
        invariant
            k <= idx@.len(),
            matched@.len() == inserts@.len(),
            old(matched)@.len() == inserts@.len(),
            idx_ok(idx@, inserts@.len() as nat),
            items@ == map_idx(inserts@, idx@.take(k as int)),
            matched@ == merge_marks(old(matched)@, idx@.take(k as int)),
        decreases idx@.len() - k,
    {
        let j = idx[k];
        let ghost prev = matched@;
        items.push(inserts[j]);
        matched[j] = true;
        proof {
            assert(idx@.take(k + 1) =~= idx@.take(k as int).push(j));
            assert(items@ =~= map_idx(inserts@, idx@.take(k + 1)));
            assert(matched@ =~= prev.update(j as int, true));
            assert forall|i: int| 0 <= i < matched@.len() implies matched@[i] == merge_marks(
                old(matched)@,
                idx@.take(k + 1),
            )[i] by {
                assert(idx@.take(k + 1)[k as int] == j);
                if i == j as int {
                    assert(idx_has(idx@.take(k + 1), i));
                } else {
                    assert(matched@[i] == prev[i]);
                    if idx_has(idx@.take(k + 1), i) && !idx_has(idx@.take(k as int), i) {
                        let t = choose|t: int|
                            0 <= t < idx@.take(k + 1).len() && (#[trigger] idx@.take(k + 1)[t])
                                as int == i;
                        assert(t == k);
                        assert(false);
                    }
                    if idx_has(idx@.take(k as int), i) {
                        let t = choose|t: int|
                            0 <= t < idx@.take(k as int).len() && (#[trigger] idx@.take(
                                k as int,
                            )[t]) as int == i;
                        assert((idx@.take(k + 1)[t]) as int == i);
                        assert(idx_has(idx@.take(k + 1), i));
                    }
                }
            }
            assert(matched@ =~= merge_marks(old(matched)@, idx@.take(k + 1)));
        }
        k += 1;
    }
    proof {
        assert(idx@.take(idx@.len() as int) =~= idx@);
    }
    Node::Data(items)
}

/// A coordinate that no child selector of a branch accepted cannot
/// exist: the selectors jointly cover the axis.
proof fn lemma_sel_chain_k(c: Coord, ps: Seq<i64>, k: int)
    requires
        coord_wf(c),
        0 <= k < ps.len(),
        !(lo(c) < ps[0] as int),
        forall|t: int| 0 <= t < ps.len() ==> !touches(c, #[trigger] ps[t] as int),
        forall|t: int|
            1 <= t < ps.len() ==> !coord_matches(c, ps[t - 1] as int, #[trigger] ps[t] as int),
    ensures
        lo(c) > ps[k] as int,
    decreases k,
{
    if k == 0 {
        assert(!touches(c, ps[0] as int));
        assert(lo(c) >= ps[0] as int);
        assert(hi(c) >= lo(c));
    } else {
        lemma_sel_chain_k(c, ps, k - 1);
        assert(!coord_matches(c, ps[k - 1] as int, ps[k] as int));
        assert(hi(c) >= lo(c));
    }
}

/// Duplicate-free sequences with the same elements have equal multisets.
proof fn lemma_no_dup_ms_eq(a: Seq<usize>, b: Seq<usize>)
    requires
        a.no_duplicates(),
        b.no_duplicates(),
        forall|e: usize| a.contains(e) <==> b.contains(e),
    ensures
        a.to_multiset() == b.to_multiset(),
{
    broadcast use vstd::seq_lib::group_to_multiset_ensures;

    a.lemma_multiset_has_no_duplicates();
    b.lemma_multiset_has_no_duplicates();
    assert forall|e: usize| true implies a.to_multiset().count(e) == b.to_multiset().count(e) by {
        if a.contains(e) {
            assert(b.contains(e));
        } else {
            assert(!b.contains(e));
            assert(a.to_multiset().count(e) == 0);
            assert(b.to_multiset().count(e) == 0);
        }
    }
    assert(a.to_multiset() =~= b.to_multiset());
}

/// Membership in a concatenation is membership in either part.
proof fn lemma_idx_has_add(a: Seq<usize>, b: Seq<usize>, i: int)
    ensures
        idx_has(a + b, i) == (idx_has(a, i) || idx_has(b, i)),
{
    if idx_has(a, i) {
        let t = choose|t: int| 0 <= t < a.len() && (#[trigger] a[t]) as int == i;
        assert((a + b)[t] as int == i);
        assert(idx_has(a + b, i));
    }
    if idx_has(b, i) {
        let t = choose|t: int| 0 <= t < b.len() && (#[trigger] b[t]) as int == i;
        assert((a + b)[a.len() + t] as int == i);
        assert(idx_has(a + b, i));
    }
    if idx_has(a + b, i) {
        let t = choose|t: int| 0 <= t < (a + b).len() && (#[trigger] (a + b)[t]) as int == i;
        if t < a.len() {
            assert(a[t] as int == i);
            assert(idx_has(a, i));
        } else {
            assert(b[t - a.len()] as int == i);
            assert(idx_has(b, i));
        }
    }
}

/// Concatenating duplicate-free sequences with no shared elements keeps
/// them duplicate-free.
proof fn lemma_no_dup_concat(a: Seq<usize>, b: Seq<usize>)
    requires
        a.no_duplicates(),
        b.no_duplicates(),
        forall|e: usize| b.contains(e) ==> !a.contains(e),
    ensures
        (a + b).no_duplicates(),
{
    assert forall|p: int, q: int| 0 <= p < q < (a + b).len() implies (a + b)[p] != (a + b)[q] by {
        if p < a.len() && q >= a.len() {
            if a[p] == b[q - a.len()] {
                assert(a.contains(a[p]));
                assert(b.contains(b[q - a.len()]));
            }
        }
    }
}

/// Facts about the two filtered index lists handed to a child build:
/// they are valid, duplicate-free, multiset-equal, and select exactly
/// the unmatched items the selector accepts.
proof fn lemma_child_input(
    ins: Seq<Item>,
    s0: Seq<usize>,
    s1: Seq<usize>,
    m: Seq<bool>,
    sel: Sel,
    axi: int,
)
    requires
        m.len() == ins.len(),
        idx_ok(s0, ins.len() as nat),
        idx_ok(s1, ins.len() as nat),
        s0.to_multiset() == s1.to_multiset(),
        s0.no_duplicates(),
        forall|k: int| 0 <= k < s0.len() ==> item_wf(ins[#[trigger] s0[k] as int]),
    ensures
        ({
            let pred = sel_pred(sel, ins, m, axi);
            let f0 = s0.filter(pred);
            let f1 = s1.filter(pred);
            &&& f0.to_multiset() == f1.to_multiset()
            &&& f0.no_duplicates()
            &&& idx_ok(f0, ins.len() as nat)
            &&& idx_ok(f1, ins.len() as nat)
            &&& f0.len() <= s0.len()
            &&& f1.len() == f0.len()
            &&& (forall|k: int|
                0 <= k < f0.len() ==> !m[#[trigger] f0[k] as int] && sel_hit(
                    sel,
                    axis_coord(ins[f0[k] as int], axi),
                ))
            &&& (forall|k: int| 0 <= k < f0.len() ==> s0.contains(#[trigger] f0[k]))
            &&& (forall|k: int| 0 <= k < f0.len() ==> item_wf(ins[#[trigger] f0[k] as int]))
        }),
{
    broadcast use vstd::seq_lib::group_filter_ensures;
    broadcast use vstd::seq_lib::group_to_multiset_ensures;

    let pred = sel_pred(sel, ins, m, axi);
    let f0 = s0.filter(pred);
    let f1 = s1.filter(pred);
    assert forall|e: usize| true implies f0.to_multiset().count(e) == f1.to_multiset().count(
        e,
    ) by {
        lemma_filter_count(s0, pred, e);
        lemma_filter_count(s1, pred, e);
    }
    assert(f0.to_multiset() =~= f1.to_multiset());
    lemma_filter_no_dup(s0, pred);
    assert forall|k: int| 0 <= k < f0.len() implies s0.contains(#[trigger] f0[k]) by {
        assert(f0.contains(f0[k]));
        s0.lemma_filter_contains_rev(pred, f0[k]);
    }
    assert forall|k: int| 0 <= k < f1.len() implies (f1[k] as nat) < ins.len() by {
        assert(f1.contains(f1[k]));
        s1.lemma_filter_contains_rev(pred, f1[k]);
        let t = choose|t: int| 0 <= t < s1.len() && s1[t] == f1[k];
        assert((s1[t] as nat) < ins.len());
    }
    assert forall|k: int| 0 <= k < f0.len() implies item_wf(ins[#[trigger] f0[k] as int]) by {
        assert(s0.contains(f0[k]));
        let t = choose|t: int| 0 <= t < s0.len() && s0[t] == f0[k];
        assert(item_wf(ins[s0[t] as int]));
    }
    vstd::seq_lib::to_multiset_len(f0);
    vstd::seq_lib::to_multiset_len(f1);
}

/// After a child claims the filtered indices, the parent's bookkeeping
/// invariants carry over with the child's indices appended and the
/// child's selector recorded.
proof fn lemma_after_child(
    ins: Seq<Item>,
    s0: Seq<usize>,
    axi: int,
    sel: Sel,
    ent: Seq<bool>,
    mpre: Seq<bool>,
    mpost: Seq<bool>,
    claimed_old: Seq<usize>,
    sels_old: Seq<Sel>,
)
    requires
        ent.len() == ins.len(),
        idx_ok(s0, ins.len() as nat),
        s0.no_duplicates(),
        mpre == merge_marks(ent, claimed_old),
        mpost == merge_marks(mpre, s0.filter(sel_pred(sel, ins, mpre, axi))),
        claimed_old.no_duplicates(),
        forall|t: int| 0 <= t < claimed_old.len() ==> s0.contains(#[trigger] claimed_old[t]),
        forall|t: int, j: usize|
            #![trigger sels_old[t], axis_coord(ins[j as int], axi)]
            0 <= t < sels_old.len() && s0.contains(j) && !mpre[j as int] ==> !sel_hit(
                sels_old[t],
                axis_coord(ins[j as int], axi),
            ),
    ensures
        ({
            let f0 = s0.filter(sel_pred(sel, ins, mpre, axi));
            let claimed = claimed_old + f0;
            let sels = sels_old.push(sel);
            &&& mpost == merge_marks(ent, claimed)
            &&& claimed.no_duplicates()
            &&& (forall|t: int| 0 <= t < claimed.len() ==> s0.contains(#[trigger] claimed[t]))
            &&& (forall|t: int, j: usize|
                #![trigger sels[t], axis_coord(ins[j as int], axi)]
                0 <= t < sels.len() && s0.contains(j) && !mpost[j as int] ==> !sel_hit(
                    sels[t],
                    axis_coord(ins[j as int], axi),
                ))
        }),
{
    broadcast use vstd::seq_lib::group_filter_ensures;

    let pred = sel_pred(sel, ins, mpre, axi);
    let f0 = s0.filter(pred);
    let claimed = claimed_old + f0;
    let sels = sels_old.push(sel);
    assert forall|t: int| 0 <= t < f0.len() implies ((#[trigger] f0[t]) as nat) < ins.len()
        && s0.contains(f0[t]) by {
        assert(f0.contains(f0[t]));
        s0.lemma_filter_contains_rev(pred, f0[t]);
        let u = choose|u: int| 0 <= u < s0.len() && #[trigger] s0[u] == f0[t];
        assert((s0[u] as nat) < ins.len());
    }
    assert(mpost =~= merge_marks(ent, claimed)) by {
        assert forall|i: int| 0 <= i < ins.len() implies mpost[i] == (ent[i] || idx_has(
            claimed,
            i,
        )) by {
            lemma_idx_has_add(claimed_old, f0, i);
        }
    }
    assert((claimed).no_duplicates()) by {
        lemma_filter_no_dup(s0, pred);
        assert forall|e: usize| f0.contains(e) implies !claimed_old.contains(e) by {
            let t = choose|t: int| 0 <= t < f0.len() && #[trigger] f0[t] == e;
            assert(pred(f0[t]));
            assert(!mpre[e as int]);
            if claimed_old.contains(e) {
                let u = choose|u: int|
                    0 <= u < claimed_old.len() && #[trigger] claimed_old[u] == e;
                assert(idx_has(claimed_old, e as int));
                assert(mpre[e as int]);
                assert(false);
            }
        }
        lemma_no_dup_concat(claimed_old, f0);
    }
    assert forall|t: int| 0 <= t < claimed.len() implies s0.contains(#[trigger] claimed[t]) by {
        if t >= claimed_old.len() {
            assert(claimed[t] == f0[t - claimed_old.len()]);
        }
    }
    assert forall|t: int, j: usize|
        #![trigger sels[t], axis_coord(ins[j as int], axi)]
        0 <= t < sels.len() && s0.contains(j) && !mpost[j as int] implies !sel_hit(
        sels[t],
        axis_coord(ins[j as int], axi),
    ) by {
        let u = choose|u: int| 0 <= u < s0.len() && #[trigger] s0[u] == j;
        assert((j as nat) < ins.len());
        assert(mpost[j as int] == (mpre[j as int] || idx_has(f0, j as int)));
        assert(!mpre[j as int]);
        if t < sels_old.len() {
            assert(sels[t] == sels_old[t]);
        } else {
            assert(sels[t] == sel);
            if sel_hit(sel, axis_coord(ins[j as int], axi)) {
                assert(pred(s0[u]));
                assert(f0.contains(s0[u]));
                let w = choose|w: int| 0 <= w < f0.len() && #[trigger] f0[w] == j;
                assert(idx_has(f0, j as int));
                assert(false);
            }
        }
    }
}

/// Every item of a child built from a filtered index list satisfies the
/// predicate that held of each selected index.
proof fn lemma_items_from_filter(
    ins: Seq<Item>,
    f0: Seq<usize>,
    ms: Multiset<Item>,
    cond: spec_fn(usize) -> bool,
)
    requires
        ms == map_idx(ins, f0).to_multiset(),
        forall|t: int| 0 <= t < f0.len() ==> cond(#[trigger] f0[t]),
    ensures
        forall|it: Item|
            #[trigger] ms.contains(it) ==> exists|j: usize| #[trigger] cond(j) && it == ins[j as int],
{
    broadcast use vstd::seq_lib::group_to_multiset_ensures;

    assert forall|it: Item| #[trigger] ms.contains(it) implies exists|j: usize|
        #[trigger] cond(j) && it == ins[j as int] by {
        assert(map_idx(ins, f0).contains(it));
        let t = choose|t: int| 0 <= t < map_idx(ins, f0).len() && map_idx(ins, f0)[t] == it;
        let j = f0[t];
        assert(cond(j) && it == ins[j as int]);
    }
}

/// Choose `n_piv` pivots on axis `ax` from the axis-ordered index list
/// `sa`: each pivot separates two consecutive sample items, alternating
/// between lower- and upper-endpoint bias across tree levels.  The
/// pivots are then sorted ascending.  Pivot values steer the shape of
/// the tree only; the builder's correctness does not depend on them.
fn build_pivots(inserts: &Vec<Item>, sa: &Vec<usize>, n_piv: usize, is_min: bool, ax: usize) -> (
    ps: Vec<i64>)
    requires
        ax < 2,
        idx_ok(sa@, inserts@.len() as nat),
        1 <= n_piv,
        n_piv + 1 <= sa@.len(),
    ensures
        ps@.len() == n_piv,
        forall|p: int, q: int| 0 <= p < q < ps@.len() ==> ps@[p] <= ps@[q],
{
    let len = sa.len();
    let mut ps: Vec<i64> = Vec::new();
    let mut k: usize = 0;
    while k < n_piv
        invariant
            ps@.len() == k,
            k <= n_piv,
            1 <= n_piv,
            n_piv + 1 <= sa@.len(),
            ax < 2,
            len == sa@.len(),
            idx_ok(sa@, inserts@.len() as nat),
        decreases n_piv - k,
    {
        proof {
            let kk = k as int;
            let ll = len as int;
            assert(kk * ll <= 0xFFFF_FFFF_FFFF_FFFF * 0xFFFF_FFFF_FFFF_FFFF) by (nonlinear_arith)
                requires
                    0 <= kk <= 0xFFFF_FFFF_FFFF_FFFF,
                    0 <= ll <= 0xFFFF_FFFF_FFFF_FFFF,
            ;
        }
        let m_wide: u128 = (k as u128) * (len as u128) / ((n_piv as u128) + 1);
        proof {
            let kk = k as int;
            let ll = len as int;
            let nn = n_piv as int;
            assert(kk * ll <= (nn - 1) * ll) by (nonlinear_arith)
                requires
                    kk <= nn - 1,
                    ll >= 0,
            ;
            assert((nn - 1) * ll <= (ll - 2) * (nn + 1)) by (nonlinear_arith)
                requires
                    nn + 1 <= ll,
                    nn >= 1,
            ;
            vstd::arithmetic::div_mod::lemma_div_is_ordered(kk * ll, (ll - 2) * (nn + 1), nn + 1);
            vstd::arithmetic::div_mod::lemma_div_by_multiple(ll - 2, nn + 1);
            assert(kk * ll / (nn + 1) <= ll - 2);
            assert(kk * ll >= 0) by (nonlinear_arith)
                requires
                    kk >= 0,
                    ll >= 0,
            ;
            vstd::arithmetic::div_mod::lemma_div_pos_is_pos(kk * ll, nn + 1);
        }
        let m = #[verifier::truncate] (m_wide as usize);
        let ita = inserts[sa[m]];
        let itb = inserts[sa[m + 1]];
        let ca = axis_of(&ita, ax);
        let cb = axis_of(&itb, ax);
        let p = find_separation(coord_lo(&ca), coord_hi(&ca), coord_lo(&cb), coord_hi(&cb), is_min);
        ps.push(p);
        k += 1;
    }
    sort_i64(&mut ps);
    ps
}

/// Builder-shape invariant beyond `wf_shape`: every branch holds at
/// most `bf - 1` pivots in non-decreasing order.  Duplicate separators
/// can occur (the pivot-selection rule may compute equal midpoints), so
/// the order is not strict.
pub open spec fn wf_built(n: Node, bf: int) -> bool
    decreases n,
{
    match n {
        Node::Data(_) => true,
        Node::Ref(_) => true,
        Node::Branch(b) => {
            &&& b.pivots@.len() <= bf - 1
            &&& (forall|p: int, q: int|
                0 <= p < q < b.pivots@.len() ==> b.pivots@[p] <= b.pivots@[q])
            &&& (forall|i: int|
                0 <= i < b.intersections@.len() ==> wf_built(#[trigger] b.intersections@[i], bf))
            &&& (forall|i: int| 0 <= i < b.nodes@.len() ==> wf_built(#[trigger] b.nodes@[i], bf))
        },
    }
}

/// Number of live children in a sibling sequence: every branch or
/// reference child counts, and a leaf counts when it holds an item.
pub open spec fn live_kids(s: Seq<Node>) -> nat
    decreases s,
{
    if s.len() == 0 {
        0
    } else {
        (match s[0] {
            Node::Data(d) => if d@.len() > 0 {
                1nat
            } else {
                0nat
            },
            _ => 1nat,
        }) + live_kids(s.drop_first())
    }
}

/// Appending a child adds its liveness.
pub proof fn lemma_live_kids_push(s: Seq<Node>, c: Node)
    ensures
        live_kids(s.push(c)) == live_kids(s) + (match c {
            Node::Data(d) => if d@.len() > 0 {
                1nat
            } else {
                0nat
            },
            _ => 1nat,
        }),
    decreases s,
{
    if s.len() == 0 {
        assert(s.push(c).drop_first() =~= Seq::<Node>::empty());
        assert(s.push(c)[0] == c);
        assert(live_kids(s.push(c).drop_first()) == 0);
    } else {
        assert(s.push(c).drop_first() =~= s.drop_first().push(c));
        assert(s.push(c)[0] == s[0]);
        lemma_live_kids_push(s.drop_first(), c);
    }
}

/// Build a subtree from the remaining items, given as index lists into
/// `inserts` ordered by each axis.  Small sets become leaves; larger
/// sets are split by pivots on the axis `level % 2` into intersection
/// buckets and partition children.  Every selected item ends up in
/// exactly one leaf, recorded in `matched`.
#[verifier::loop_isolation(false)]
#[verifier::rlimit(100)]
pub fn from_sorted(
    branch_factor: usize,
    level: usize,
    inserts: &Vec<Item>,
    s0: Vec<usize>,
    s1: Vec<usize>,
    matched: &mut Vec<bool>,
) -> (n: Node)
    requires
        2 <= branch_factor,
        old(matched)@.len() == inserts@.len(),
        idx_ok(s0@, inserts@.len() as nat),
        idx_ok(s1@, inserts@.len() as nat),
        s0@.to_multiset() == s1@.to_multiset(),
        s0@.no_duplicates(),
        forall|k: int| 0 <= k < s0@.len() ==> !old(matched)@[#[trigger] s0@[k] as int],
        forall|k: int| 0 <= k < s0@.len() ==> item_wf(inserts@[#[trigger] s0@[k] as int]),
        level + s0@.len() <= usize::MAX,
    ensures
        final(matched)@ == merge_marks(old(matched)@, s0@),
        node_items(n).to_multiset() == map_idx(inserts@, s0@).to_multiset(),
        wf_shape(n),
        wf_place(n, (level % 2) as int),
        s0@.len() < branch_factor ==> n is Data,
        n is Branch ==> live_kids((n->Branch_0).nodes@) >= 2,
        wf_built(n, branch_factor as int),
    decreases s0@.len(),
{
    proof {
        vstd::seq_lib::to_multiset_len(s0@);
        vstd::seq_lib::to_multiset_len(s1@);
    }
    if s0.len() == 0 {
        let n = Node::Data(Vec::new());
        proof {
            assert(node_items(n) =~= Seq::<Item>::empty());
            assert(map_idx(inserts@, s0@) =~= Seq::<Item>::empty());
            assert(matched@ =~= merge_marks(old(matched)@, s0@));
        }
        return n;
    }
    if s0.len() < branch_factor {
        return make_leaf(inserts, &s0, matched);
    }
    let len = s0.len();
    let n_piv = if branch_factor - 1 < len - 1 {
        branch_factor - 1
    } else {
        len - 1
    };
    let is_min = (level / 2) % 2 != 0;
    let ax = level % 2;
    let ghost axi = ax as int;
    let ps = if ax == 0 {
        build_pivots(inserts, &s0, n_piv, is_min, ax)
    } else {
        build_pivots(inserts, &s1, n_piv, is_min, ax)
    };
    let ghost ent = matched@;

    let mut intersections: Vec<Node> = Vec::new();
    let ghost mut claimed: Seq<usize> = Seq::<usize>::empty();
    let ghost mut sels: Seq<Sel> = Seq::<Sel>::empty();
    proof {
        assert(map_idx(inserts@, claimed) =~= Seq::<Item>::empty());
        assert(nodes_items(intersections@).to_multiset() =~= map_idx(
            inserts@,
            claimed,
        ).to_multiset());
        assert(matched@ =~= merge_marks(ent, claimed));
    }
    let mut k: usize = 0;
    while k < n_piv
        invariant
            k <= n_piv,
            intersections@.len() == k,
            sels.len() == k,
            matched@.len() == inserts@.len(),
            matched@ == merge_marks(ent, claimed),
            claimed.no_duplicates(),
            forall|t: int| 0 <= t < claimed.len() ==> s0@.contains(#[trigger] claimed[t]),
            forall|t: int, j: usize|
                #![trigger sels[t], axis_coord(inserts@[j as int], axi)]
                0 <= t < sels.len() && s0@.contains(j) && !matched@[j as int] ==> !sel_hit(
                    sels[t],
                    axis_coord(inserts@[j as int], axi),
                ),
            forall|t: int| 0 <= t < k ==> #[trigger] sels[t] == Sel::Touch(ps@[t]),
            nodes_items(intersections@).to_multiset() == map_idx(inserts@, claimed).to_multiset(),
            forall|t: int| 0 <= t < k ==> wf_shape(#[trigger] intersections@[t]),
            forall|t: int| 0 <= t < k ==> wf_place(#[trigger] intersections@[t], 1 - axi),
            forall|t: int|
                0 <= t < k ==> wf_built(#[trigger] intersections@[t], branch_factor as int),
            forall|t: int, it: Item|
                0 <= t < k && #[trigger] node_items(intersections@[t]).contains(it) ==> touches(
                    axis_coord(it, axi),
                    ps@[t] as int,
                ),
        decreases n_piv - k,
    {
        let p = ps[k];
        let sel = Sel::Touch(p);
        let ghost mpre = matched@;
        let ghost pred = sel_pred(sel, inserts@, mpre, axi);
        proof {
            lemma_child_input(inserts@, s0@, s1@, mpre, sel, axi);
        }
        let f0 = filter_idx(inserts, &s0, matched, ax, &sel);
        let f1 = filter_idx(inserts, &s1, matched, ax, &sel);
        let ghost gf0 = f0@;
        let child: Node;
        if f0.len() == s0.len() {
            child = make_leaf(inserts, &f0, matched);
        } else {
            child = from_sorted(branch_factor, level + 1, inserts, f0, f1, matched);
        }
        proof {
            assert((level + 1) % 2 == 1 - axi);
        }
        let ghost gprev = intersections@;
        intersections.push(child);
        proof {
            lemma_after_child(inserts@, s0@, axi, sel, ent, mpre, matched@, claimed, sels);
            assert(intersections@ =~= gprev.push(child));
            lemma_nodes_items_push(gprev, child);
            lemma_ms_add(nodes_items(gprev), node_items(child));
            lemma_map_idx_add(inserts@, claimed, gf0);
            lemma_ms_add(map_idx(inserts@, claimed), map_idx(inserts@, gf0));
            let cond = |j: usize| sel_hit(sel, axis_coord(inserts@[j as int], axi));
            lemma_items_from_filter(inserts@, gf0, node_items(child).to_multiset(), cond);
            claimed = claimed + gf0;
            sels = sels.push(sel);
            assert forall|t: int, it: Item|
                0 <= t < k + 1 && #[trigger] node_items(intersections@[t]).contains(it) implies touches(
                axis_coord(it, axi),
                ps@[t] as int,
            ) by {
                if t == k {
                    assert(node_items(child).to_multiset().contains(it)) by {
                        broadcast use vstd::seq_lib::group_to_multiset_ensures;

                    }
                    let j = choose|j: usize| #[trigger] cond(j) && it == inserts@[j as int];
                    assert(sel_hit(sel, axis_coord(inserts@[j as int], axi)));
                }
            }
        }
        k += 1;
    }

    let mut nodesv: Vec<Node> = Vec::new();
    // first partition child: items entirely below the first pivot
    let sel0 = Sel::Below(ps[0]);
    let ghost mpre0 = matched@;
    proof {
        lemma_child_input(inserts@, s0@, s1@, mpre0, sel0, axi);
    }
    let f0 = filter_idx(inserts, &s0, matched, ax, &sel0);
    let f1 = filter_idx(inserts, &s1, matched, ax, &sel0);
    let ghost gb0 = f0@;
    let child0: Node;
    if f0.len() == s0.len() {
        child0 = make_leaf(inserts, &f0, matched);
    } else {
        child0 = from_sorted(branch_factor, level + 1, inserts, f0, f1, matched);
    }
    proof {
        assert((level + 1) % 2 == 1 - axi);
    }
    nodesv.push(child0);
    proof {
        lemma_after_child(inserts@, s0@, axi, sel0, ent, mpre0, matched@, claimed, sels);
        lemma_nodes_items_push(Seq::<Node>::empty(), child0);
        assert(nodesv@ =~= Seq::<Node>::empty().push(child0));
        lemma_map_idx_add(inserts@, claimed, gb0);
        lemma_ms_add(map_idx(inserts@, claimed), map_idx(inserts@, gb0));
        let cond0 = |j: usize| !mpre0[j as int] && sel_hit(sel0, axis_coord(inserts@[j as int], axi))
            && s0@.contains(j);
        lemma_items_from_filter(inserts@, gb0, node_items(child0).to_multiset(), cond0);
        claimed = claimed + gb0;
        sels = sels.push(sel0);
        assert(nodes_items(nodesv@) =~= node_items(child0));
        assert(nodes_items(intersections@).to_multiset().add(
            nodes_items(nodesv@).to_multiset(),
        ) =~= map_idx(inserts@, claimed).to_multiset());
        assert forall|it: Item| node_items(nodesv@[0]).contains(it) implies hi(
            axis_coord(it, axi),
        ) < ps@[0] as int by {
            assert(node_items(child0).to_multiset().contains(it)) by {
                broadcast use vstd::seq_lib::group_to_multiset_ensures;

            }
            let j = choose|j: usize| #[trigger] cond0(j) && it == inserts@[j as int];
            let c = axis_coord(it, axi);
            assert(lo(c) < ps@[0] as int);
            assert(!touches(c, ps@[0] as int)) by {
                assert(sels[0] == Sel::Touch(ps@[0]));
                assert(!sel_hit(sels[0], axis_coord(inserts@[j as int], axi)));
            }
        }
    }

    // middle partition children: items strictly inside each slab
    let mut km: usize = 1;
    while km < n_piv
        invariant
            1 <= km <= n_piv,
            nodesv@.len() == km,
            sels.len() == n_piv + km,
            matched@.len() == inserts@.len(),
            matched@ == merge_marks(ent, claimed),
            claimed.no_duplicates(),
            forall|t: int| 0 <= t < claimed.len() ==> s0@.contains(#[trigger] claimed[t]),
            forall|t: int, j: usize|
                #![trigger sels[t], axis_coord(inserts@[j as int], axi)]
                0 <= t < sels.len() && s0@.contains(j) && !matched@[j as int] ==> !sel_hit(
                    sels[t],
                    axis_coord(inserts@[j as int], axi),
                ),
            forall|t: int| 0 <= t < n_piv ==> #[trigger] sels[t] == Sel::Touch(ps@[t]),
            sels[n_piv as int] == Sel::Below(ps@[0]),
            forall|t: int|
                1 <= t < km ==> #[trigger] sels[n_piv + t] == Sel::Slab(ps@[t - 1], ps@[t]),
            nodes_items(intersections@).to_multiset().add(nodes_items(nodesv@).to_multiset())
                == map_idx(inserts@, claimed).to_multiset(),
            forall|t: int| 0 <= t < km ==> wf_shape(#[trigger] nodesv@[t]),
            forall|t: int| 0 <= t < km ==> wf_place(#[trigger] nodesv@[t], 1 - axi),
            forall|t: int| 0 <= t < km ==> wf_built(#[trigger] nodesv@[t], branch_factor as int),
            forall|it: Item|
                node_items(nodesv@[0]).contains(it) ==> hi(axis_coord(it, axi)) < ps@[0] as int,
            forall|t: int, it: Item|
                1 <= t < km && #[trigger] node_items(nodesv@[t]).contains(it) ==> ((ps@[t
                    - 1] as int) < lo(axis_coord(it, axi)) && hi(axis_coord(it, axi)) < (
                ps@[t] as int)),
        decreases n_piv - km,
    {
        let sel = Sel::Slab(ps[km - 1], ps[km]);
        let ghost mpre = matched@;
        proof {
            lemma_child_input(inserts@, s0@, s1@, mpre, sel, axi);
        }
        let f0 = filter_idx(inserts, &s0, matched, ax, &sel);
        let f1 = filter_idx(inserts, &s1, matched, ax, &sel);
        let ghost gf0 = f0@;
        let child: Node;
        if f0.len() == s0.len() {
            child = make_leaf(inserts, &f0, matched);
        } else {
            child = from_sorted(branch_factor, level + 1, inserts, f0, f1, matched);
        }
        proof {
            assert((level + 1) % 2 == 1 - axi);
        }
        let ghost gprev = nodesv@;
        nodesv.push(child);
        proof {
            lemma_after_child(inserts@, s0@, axi, sel, ent, mpre, matched@, claimed, sels);
            assert(nodesv@ =~= gprev.push(child));
            lemma_nodes_items_push(gprev, child);
            lemma_ms_add(nodes_items(gprev), node_items(child));
            lemma_map_idx_add(inserts@, claimed, gf0);
            lemma_ms_add(map_idx(inserts@, claimed), map_idx(inserts@, gf0));
            let cond = |j: usize| !mpre[j as int] && sel_hit(sel, axis_coord(inserts@[j as int], axi))
                && s0@.contains(j);
            lemma_items_from_filter(inserts@, gf0, node_items(child).to_multiset(), cond);
            claimed = claimed + gf0;
            sels = sels.push(sel);
            assert(nodes_items(intersections@).to_multiset().add(
                nodes_items(nodesv@).to_multiset(),
            ) =~= map_idx(inserts@, claimed).to_multiset());
            assert forall|t: int, it: Item|
                1 <= t < km + 1 && #[trigger] node_items(nodesv@[t]).contains(it) implies ((ps@[t
                - 1] as int) < lo(axis_coord(it, axi)) && hi(axis_coord(it, axi)) < (
            ps@[t] as int)) by {
                if t == km {
                    assert(node_items(child).to_multiset().contains(it)) by {
                        broadcast use vstd::seq_lib::group_to_multiset_ensures;

                    }
                    let j = choose|j: usize| #[trigger] cond(j) && it == inserts@[j as int];
                    assert(!mpre[j as int] && sel_hit(sel, axis_coord(inserts@[j as int], axi))
                        && s0@.contains(j));
                    let c = axis_coord(it, axi);
                    assert(!touches(c, ps@[t - 1] as int)) by {
                        assert(sels[t - 1] == Sel::Touch(ps@[t - 1]));
                        assert(!sel_hit(sels[t - 1], axis_coord(inserts@[j as int], axi)));
                    }
                    assert(!touches(c, ps@[t] as int)) by {
                        assert(sels[t] == Sel::Touch(ps@[t]));
                        assert(!sel_hit(sels[t], axis_coord(inserts@[j as int], axi)));
                    }
                }
            }
        }
        km += 1;
    }

    // last partition child: items entirely above the last pivot
    let sel_last = Sel::Above(ps[n_piv - 1]);
    let ghost mprel = matched@;
    proof {
        lemma_child_input(inserts@, s0@, s1@, mprel, sel_last, axi);
    }
    let f0 = filter_idx(inserts, &s0, matched, ax, &sel_last);
    let f1 = filter_idx(inserts, &s1, matched, ax, &sel_last);
    let ghost glast = f0@;
    let child_last: Node;
    if f0.len() == s0.len() {
        child_last = make_leaf(inserts, &f0, matched);
    } else {
        child_last = from_sorted(branch_factor, level + 1, inserts, f0, f1, matched);
    }
    proof {
        assert((level + 1) % 2 == 1 - axi);
    }
    let ghost gplast = nodesv@;
    nodesv.push(child_last);
    proof {
        lemma_after_child(inserts@, s0@, axi, sel_last, ent, mprel, matched@, claimed, sels);
        assert(nodesv@ =~= gplast.push(child_last));
        lemma_nodes_items_push(gplast, child_last);
        lemma_ms_add(nodes_items(gplast), node_items(child_last));
        lemma_map_idx_add(inserts@, claimed, glast);
        lemma_ms_add(map_idx(inserts@, claimed), map_idx(inserts@, glast));
        let condl = |j: usize| sel_hit(sel_last, axis_coord(inserts@[j as int], axi));
        lemma_items_from_filter(inserts@, glast, node_items(child_last).to_multiset(), condl);
        claimed = claimed + glast;
        sels = sels.push(sel_last);
        assert(nodes_items(intersections@).to_multiset().add(
            nodes_items(nodesv@).to_multiset(),
        ) =~= map_idx(inserts@, claimed).to_multiset());
        assert forall|it: Item| node_items(nodesv@[nodesv@.len() - 1]).contains(it) implies lo(
            axis_coord(it, axi),
        ) > ps@[n_piv - 1] as int by {
            assert(node_items(child_last).to_multiset().contains(it)) by {
                broadcast use vstd::seq_lib::group_to_multiset_ensures;

            }
            let j = choose|j: usize| #[trigger] condl(j) && it == inserts@[j as int];
            assert(sel_hit(sel_last, axis_coord(inserts@[j as int], axi)));
        }
    }

    // count non-empty partition children; with one or fewer the split
    // gained nothing and the whole set collapses into a single leaf
    let mut nonempty: usize = 0;
    let mut t: usize = 0;
    proof {
        assert(nodesv@.take(0) =~= Seq::<Node>::empty());
    }
    while t < nodesv.len()
        invariant
            t <= nodesv@.len(),
            nonempty as nat == live_kids(nodesv@.take(t as int)),
            nonempty <= t,
        decreases nodesv@.len() - t,
    {
        proof {
            lemma_live_kids_push(nodesv@.take(t as int), nodesv@[t as int]);
            assert(nodesv@.take(t + 1) =~= nodesv@.take(t as int).push(nodesv@[t as int]));
        }
        match &nodesv[t] {
            Node::Data(d) => {
                if d.len() > 0 {
                    nonempty += 1;
                }
            },
            _ => {
                nonempty += 1;
            },
        }
        t += 1;
    }
    proof {
        assert(nodesv@.take(nodesv@.len() as int) =~= nodesv@);
    }
    if nonempty <= 1 {
        let ghost mid = matched@;
        let n = make_leaf(inserts, &s0, matched);
        proof {
            assert forall|i: int| 0 <= i < matched@.len() implies matched@[i] == merge_marks(
                old(matched)@,
                s0@,
            )[i] by {
                assert(matched@[i] == (mid[i] || idx_has(s0@, i)));
                assert(mid[i] == (ent[i] || idx_has(claimed, i)));
                if idx_has(claimed, i) {
                    let u = choose|u: int|
                        0 <= u < claimed.len() && (#[trigger] claimed[u]) as int == i;
                    assert(s0@.contains(claimed[u]));
                    let w = choose|w: int| 0 <= w < s0@.len() && #[trigger] s0@[w] == claimed[u];
                    assert(idx_has(s0@, i));
                }
            }
            assert(matched@ =~= merge_marks(old(matched)@, s0@));
        }
        return n;
    }

    proof {
        assert(nodes_items(intersections@).to_multiset().add(nodes_items(nodesv@).to_multiset())
            == map_idx(inserts@, claimed).to_multiset());
    }
    let ghost ginter = intersections@;
    let ghost gnodes = nodesv@;
    let ghost gps = ps@;
    let n = Node::Branch(Branch { pivots: ps, intersections, nodes: nodesv });
    proof {
        let branch = n.arrow_Branch_0();
        assert(branch.intersections@ == ginter);
        assert(branch.nodes@ == gnodes);
        assert(branch.pivots@ == gps);
        // every remaining index was claimed by some child
        assert forall|w: int| 0 <= w < s0@.len() implies matched@[#[trigger] s0@[w] as int] by {
            let j = s0@[w];
            if !matched@[j as int] {
                assert(s0@.contains(j));
                let c = axis_coord(inserts@[j as int], axi);
                assert forall|u: int| 0 <= u < ps@.len() implies !touches(
                    c,
                    #[trigger] ps@[u] as int,
                ) by {
                    assert(sels[u] == Sel::Touch(ps@[u]));
                    assert(!sel_hit(sels[u], axis_coord(inserts@[j as int], axi)));
                }
                assert forall|u: int| 1 <= u < ps@.len() implies !coord_matches(
                    c,
                    ps@[u - 1] as int,
                    #[trigger] ps@[u] as int,
                ) by {
                    assert(sels[n_piv + u] == Sel::Slab(ps@[u - 1], ps@[u]));
                    assert(!sel_hit(sels[n_piv + u], axis_coord(inserts@[j as int], axi)));
                }
                assert(!sel_hit(sels[n_piv as int], axis_coord(inserts@[j as int], axi)));
                assert(!sel_hit(sels[sels.len() - 1], axis_coord(inserts@[j as int], axi)));
                assert(!(lo(c) < ps@[0] as int));
                assert(!(lo(c) > ps@[ps@.len() - 1] as int));
                assert(item_wf(inserts@[j as int]));
                assert(coord_wf(c));
                lemma_sel_chain_k(c, ps@, ps@.len() - 1);
                assert(false);
            }
        }
        // the claimed indices are exactly the input indices
        assert forall|e: usize| true implies (claimed.contains(e) <==> s0@.contains(e)) by {
            if claimed.contains(e) {
                let u = choose|u: int| 0 <= u < claimed.len() && #[trigger] claimed[u] == e;
                assert(s0@.contains(claimed[u]));
            }
            if s0@.contains(e) {
                let w = choose|w: int| 0 <= w < s0@.len() && #[trigger] s0@[w] == e;
                assert(matched@[e as int]);
                assert(!ent[e as int]);
                assert(idx_has(claimed, e as int));
                let u = choose|u: int|
                    0 <= u < claimed.len() && (#[trigger] claimed[u]) as int == e as int;
                assert(claimed[u] == e);
            }
        }
        lemma_no_dup_ms_eq(claimed, s0@);
        lemma_map_idx_multiset(inserts@, claimed, s0@);
        lemma_ms_add(nodes_items(branch.intersections@), nodes_items(branch.nodes@));
        assert forall|i: int| 0 <= i < matched@.len() implies matched@[i] == merge_marks(
            old(matched)@,
            s0@,
        )[i] by {
            assert(matched@[i] == (ent[i] || idx_has(claimed, i)));
            if idx_has(claimed, i) {
                let u = choose|u: int| 0 <= u < claimed.len() && (#[trigger] claimed[u]) as int == i;
                assert(s0@.contains(claimed[u]));
                let w = choose|w: int| 0 <= w < s0@.len() && #[trigger] s0@[w] == claimed[u];
                assert(idx_has(s0@, i));
            }
            if idx_has(s0@, i) {
                let w = choose|w: int| 0 <= w < s0@.len() && (#[trigger] s0@[w]) as int == i;
                assert(matched@[i]);
                assert(!ent[i]);
                assert(idx_has(claimed, i));
            }
        }
        assert(matched@ =~= merge_marks(old(matched)@, s0@));
        assert(node_items(n) == nodes_items(ginter) + nodes_items(gnodes));
        assert(node_items(n).to_multiset() == map_idx(inserts@, s0@).to_multiset());
        assert(wf_shape(n)) by {
            assert(forall|i: int| 0 <= i < ginter.len() ==> wf_shape(#[trigger] ginter[i]));
            assert(forall|i: int| 0 <= i < gnodes.len() ==> wf_shape(#[trigger] gnodes[i]));
        }
        assert(wf_built(n, branch_factor as int)) by {
            assert(gps.len() <= branch_factor - 1);
            assert(forall|p2: int, q2: int| 0 <= p2 < q2 < gps.len() ==> gps[p2] <= gps[q2]);
            assert(forall|i: int|
                0 <= i < ginter.len() ==> wf_built(#[trigger] ginter[i], branch_factor as int));
            assert(forall|i: int|
                0 <= i < gnodes.len() ==> wf_built(#[trigger] gnodes[i], branch_factor as int));
        }
        assert(wf_place(n, (level % 2) as int)) by {
            let m = gps.len() as int;
            assert(ginter.len() == m);
            assert(gnodes.len() == m + 1);
            assert(forall|k2: int, it: Item|
                0 <= k2 < m && #[trigger] node_items(ginter[k2]).contains(it) ==> touches(
                    axis_coord(it, axi),
                    gps[k2] as int,
                ));
            assert(forall|it: Item|
                node_items(gnodes[0]).contains(it) ==> hi(axis_coord(it, axi)) < gps[0] as int);
            assert(forall|k2: int, it: Item|
                1 <= k2 < m && #[trigger] node_items(gnodes[k2]).contains(it) ==> ((gps[k2
                    - 1] as int) < lo(axis_coord(it, axi)) && hi(axis_coord(it, axi)) < (
                gps[k2] as int)));
            assert(forall|it: Item|
                node_items(gnodes[m]).contains(it) ==> lo(axis_coord(it, axi)) > gps[m
                    - 1] as int);
            assert(forall|i: int| 0 <= i < m ==> wf_place(#[trigger] ginter[i], 1 - axi));
            assert(forall|i: int| 0 <= i <= m ==> wf_place(#[trigger] gnodes[i], 1 - axi));
        }
    }
    n
}

/// Least lower endpoint of the items' coordinates on the given axis.
pub open spec fn env_lo(items: Seq<Item>, ax: int) -> int
    decreases items.len(),
{
    if items.len() <= 1 {
        lo(axis_coord(items[0], ax))
    } else {
        let rest = env_lo(items.drop_last(), ax);
        let l = lo(axis_coord(items.last(), ax));
        if rest <= l {
            rest
        } else {
            l
        }
    }
}

/// Greatest upper endpoint of the items' coordinates on the given axis.
pub open spec fn env_hi(items: Seq<Item>, ax: int) -> int
    decreases items.len(),
{
    if items.len() <= 1 {
        hi(axis_coord(items[0], ax))
    } else {
        let rest = env_hi(items.drop_last(), ax);
        let h = hi(axis_coord(items.last(), ax));
        if rest >= h {
            rest
        } else {
            h
        }
    }
}

/// The bounds tuple is the component-wise min/max envelope of the items.
pub open spec fn bounds_is_envelope(b: (i64, i64, i64, i64), items: Seq<Item>) -> bool {
    &&& b.0 as int == env_lo(items, 0)
    &&& b.1 as int == env_lo(items, 1)
    &&& b.2 as int == env_hi(items, 0)
    &&& b.3 as int == env_hi(items, 1)
}

/// Compute the component-wise min/max envelope of a non-empty row list.
fn compute_bounds(rows: &Vec<Item>) -> (b: (i64, i64, i64, i64))
    requires
        1 <= rows@.len(),
    ensures
        bounds_is_envelope(b, rows@),
{
    let it0 = rows[0];
    let mut lx = coord_lo(&it0.point.0);
    let mut ly = coord_lo(&it0.point.1);
    let mut hx = coord_hi(&it0.point.0);
    let mut hy = coord_hi(&it0.point.1);
    let mut k: usize = 1;
    proof {
        assert(rows@.take(1)[0] == rows@[0]);
    }
    while k < rows.len()
        invariant
            1 <= k <= rows@.len(),
            lx as int == env_lo(rows@.take(k as int), 0),
            ly as int == env_lo(rows@.take(k as int), 1),
            hx as int == env_hi(rows@.take(k as int), 0),
            hy as int == env_hi(rows@.take(k as int), 1),
        decreases rows@.len() - k,
    {
        let it = rows[k];
        lx = coord_min(&it.point.0, lx);
        ly = coord_min(&it.point.1, ly);
        hx = coord_max(&it.point.0, hx);
        hy = coord_max(&it.point.1, hy);
        proof {
            assert(rows@.take(k + 1).drop_last() =~= rows@.take(k as int));
            assert(rows@.take(k + 1).last() == rows@[k as int]);
        }
        k += 1;
    }
    proof {
        assert(rows@.take(rows@.len() as int) =~= rows@);
    }
    (lx, ly, hx, hy)
}

/// Indices `0..rows.len()` ordered by the lower endpoint of each item's
/// coordinate on the given axis (selection sort).
#[verifier::loop_isolation(false)]
fn sort_axis(inserts: &Vec<Item>, ax: usize) -> (r: Vec<usize>)
    requires
        ax < 2,
    ensures
        r@.len() == inserts@.len(),
        idx_ok(r@, inserts@.len() as nat),
        r@.no_duplicates(),
        r@.to_multiset() == Seq::new(inserts@.len(), |i: int| i as usize).to_multiset(),
        forall|p: int, q: int|
            0 <= p < q < r@.len() ==> lo(axis_coord(inserts@[r@[p] as int], ax as int)) <= lo(
                axis_coord(inserts@[r@[q] as int], ax as int),
            ),
{
    broadcast use vstd::seq_lib::group_to_multiset_ensures;

    let ghost ident = Seq::new(inserts@.len(), |i: int| i as usize);
    let n = inserts.len();
    let mut r: Vec<usize> = Vec::new();
    let mut i: usize = 0;
    while i < n
        invariant
            i <= n,
            r@.len() == i,
            forall|t: int| 0 <= t < i ==> r@[t] == t as usize,
        decreases n - i,
    {
        r.push(i);
        i += 1;
    }
    proof {
        assert(r@ =~= ident);
    }
    let mut i: usize = 0;
    while i < n
        invariant
            i <= n,
            r@.len() == n,
            idx_ok(r@, inserts@.len() as nat),
            r@.to_multiset() == ident.to_multiset(),
            forall|p: int, q: int|
                0 <= p < q < i ==> lo(axis_coord(inserts@[r@[p] as int], ax as int)) <= lo(
                    axis_coord(inserts@[r@[q] as int], ax as int),
                ),
            forall|p: int, q: int|
                0 <= p < i <= q < n ==> lo(axis_coord(inserts@[r@[p] as int], ax as int)) <= lo(
                    axis_coord(inserts@[r@[q] as int], ax as int),
                ),
        decreases n - i,
    {
        let mut mi: usize = i;
        let mut j: usize = i + 1;
        while j < n
            invariant
                i <= mi < j <= n,
                forall|t: int|
                    i <= t < j ==> lo(axis_coord(inserts@[r@[mi as int] as int], ax as int)) <= lo(
                        axis_coord(inserts@[r@[t] as int], ax as int),
                    ),
            decreases n - j,
        {
            let cj = axis_of(&inserts[r[j]], ax);
            let cm = axis_of(&inserts[r[mi]], ax);
            if coord_lo(&cj) < coord_lo(&cm) {
                mi = j;
            }
            j += 1;
        }
        let a = r[i];
        let b = r[mi];
        let ghost before = r@;
        r[i] = b;
        r[mi] = a;
        proof {
            assert(r@ =~= before.update(i as int, before[mi as int]).update(
                mi as int,
                before[i as int],
            ));
            crate::perm::lemma_swap_ms(before, i as int, mi as int);
        }
        i += 1;
    }
    proof {
        let identn = Seq::new(inserts@.len(), |i: int| i as usize);
        assert(identn.no_duplicates());
        identn.lemma_multiset_has_no_duplicates();
        assert forall|e: usize| r@.to_multiset().contains(e) implies r@.to_multiset().count(e)
            == 1 by {
            assert(identn.to_multiset().count(e) == r@.to_multiset().count(e));
        }
        r@.lemma_multiset_has_no_duplicates_conv();
    }
    r
}

/// Sort a pivot vector ascending in place (selection sort).
fn sort_i64(v: &mut Vec<i64>)
    ensures
        final(v)@.len() == old(v)@.len(),
        forall|p: int, q: int| 0 <= p < q < final(v)@.len() ==> final(v)@[p] <= final(v)@[q],
{
    let n = v.len();
    let mut i: usize = 0;
    while i < n
        invariant
            i <= n,
            v@.len() == n,
            forall|p: int, q: int| 0 <= p < q < i ==> v@[p] <= v@[q],
            forall|p: int, q: int| 0 <= p < i <= q < n ==> v@[p] <= v@[q],
        decreases n - i,
    {
        let mut mi: usize = i;
        let mut j: usize = i + 1;
        while j < n
            invariant
                i <= mi < j <= n,
                v@.len() == n,
                forall|t: int| i <= t < j ==> v@[mi as int] <= v@[t],
            decreases n - j,
        {
            if v[j] < v[mi] {
                mi = j;
            }
            j += 1;
        }
        let a = v[i];
        let b = v[mi];
        v[i] = b;
        v[mi] = a;
        i += 1;
    }
}

/// Items of a sequence of trees, concatenated in slot order.
pub open spec fn trees_items(ts: Seq<Tree>) -> Seq<Item>
    decreases ts.len(),
{
    if ts.len() == 0 {
        Seq::<Item>::empty()
    } else {
        trees_items(ts.drop_last()) + node_items(ts.last().root)
    }
}

/// References of a sequence of trees, concatenated in slot order.
pub open spec fn trees_refs(ts: Seq<Tree>) -> Seq<TreeRef>
    decreases ts.len(),
{
    if ts.len() == 0 {
        Seq::<TreeRef>::empty()
    } else {
        trees_refs(ts.drop_last()) + node_refs(ts.last().root)
    }
}

impl Tree {
    /// Build an immutable tree from a non-empty batch of rows: every row
    /// ends up in exactly one leaf, the bounds are the component-wise
    /// envelope, and the count is the number of rows.
    pub fn build(branch_factor: usize, rows: &Vec<Item>) -> (t: Tree)
        requires
            2 <= branch_factor,
            1 <= rows@.len(),
            forall|k: int| 0 <= k < rows@.len() ==> item_wf(#[trigger] rows@[k]),
        ensures
            node_items(t.root).to_multiset() == rows@.to_multiset(),
            wf_shape(t.root),
            wf_place(t.root, 0),
            t.count == rows@.len(),
            bounds_is_envelope(t.bounds, rows@),
            rows@.len() < branch_factor ==> t.root is Data,
            t.root is Branch ==> live_kids((t.root->Branch_0).nodes@) >= 2,
            wf_built(t.root, branch_factor as int),
    {
        let ghost ident = Seq::new(rows@.len(), |i: int| i as usize);
        let s0 = sort_axis(rows, 0);
        let s1 = sort_axis(rows, 1);
        let mut matched: Vec<bool> = Vec::new();
        let mut i: usize = 0;
        while i < rows.len()
            invariant
                i <= rows@.len(),
                matched@.len() == i,
                forall|t: int| 0 <= t < i ==> !matched@[t],
            decreases rows@.len() - i,
        {
            matched.push(false);
            i += 1;
        }
        proof {
            assert forall|k: int| 0 <= k < s0@.len() implies !matched@[#[trigger] s0@[k] as int]
                && item_wf(rows@[s0@[k] as int]) by {
                assert((s0@[k] as nat) < rows@.len());
            }
            vstd::seq_lib::to_multiset_len(s0@);
        }
        let ghost gs0 = s0@;
        let root = from_sorted(branch_factor, 0, rows, s0, s1, &mut matched);
        proof {
            assert(map_idx(rows@, ident) =~= rows@);
            lemma_map_idx_multiset(rows@, gs0, ident);
        }
        let bounds = compute_bounds(rows);
        Tree { root, bounds, count: rows.len() }
    }

    /// Enumerate the items stored in this tree's leaves and the external
    /// references it holds, without following any reference.
    pub fn list(&self) -> (r: (Vec<Item>, Vec<TreeRef>))
        ensures
            r.0@ == node_items(self.root),
            r.1@ == node_refs(self.root),
    {
        let mut out: Vec<Item> = Vec::new();
        let mut refs: Vec<TreeRef> = Vec::new();
        list_node(&self.root, &mut out, &mut refs);
        proof {
            assert(out@ =~= node_items(self.root));
            assert(refs@ =~= node_refs(self.root));
        }
        (out, refs)
    }
}

/// Append a subtree's items and external references, in enumeration
/// order.
fn list_node(n: &Node, out: &mut Vec<Item>, refs: &mut Vec<TreeRef>)
    ensures
        final(out)@ == old(out)@ + node_items(*n),
        final(refs)@ == old(refs)@ + node_refs(*n),
    decreases *n,
{
    match n {
        Node::Data(items) => {
            let mut k: usize = 0;
            while k < items.len()
                invariant
                    k <= items@.len(),
                    out@ == old(out)@ + items@.take(k as int),
                    refs@ == old(refs)@,
                decreases items@.len() - k,
            {
                out.push(items[k]);
                proof {
                    assert(old(out)@ + items@.take(k + 1) =~= (old(out)@ + items@.take(
                        k as int,
                    )).push(items@[k as int]));
                }
                k += 1;
            }
            proof {
                assert(items@.take(items@.len() as int) =~= items@);
                assert(old(refs)@ + node_refs(*n) =~= old(refs)@);
            }
        },
        Node::Ref(r) => {
            refs.push(*r);
            proof {
                assert(old(out)@ + node_items(*n) =~= old(out)@);
                assert(old(refs)@ + node_refs(*n) =~= old(refs)@.push(*r));
            }
        },
        Node::Branch(b) => {
            list_children(&b.intersections, out, refs);
            list_children(&b.nodes, out, refs);
            proof {
                assert(final(out)@ =~= old(out)@ + node_items(*n));
                assert(final(refs)@ =~= old(refs)@ + node_refs(*n));
            }
        },
    }
}

/// Append the items and references of a sequence of sibling subtrees.
fn list_children(cs: &Vec<Node>, out: &mut Vec<Item>, refs: &mut Vec<TreeRef>)
    ensures
        final(out)@ == old(out)@ + nodes_items(cs@),
        final(refs)@ == old(refs)@ + nodes_refs(cs@),
    decreases cs@,
{
    let mut k: usize = 0;
    proof {
        assert(out@ =~= old(out)@ + nodes_items(cs@.take(0)));
        assert(refs@ =~= old(refs)@ + nodes_refs(cs@.take(0)));
    }
    while k < cs.len()
        invariant
            k <= cs@.len(),
            out@ == old(out)@ + nodes_items(cs@.take(k as int)),
            refs@ == old(refs)@ + nodes_refs(cs@.take(k as int)),
        decreases cs@.len() - k,
    {
        list_node(&cs[k], out, refs);
        proof {
            assert(cs@.take(k + 1) =~= cs@.take(k as int).push(cs@[k as int]));
            lemma_nodes_items_push(cs@.take(k as int), cs@[k as int]);
            lemma_nodes_refs_push(cs@.take(k as int), cs@[k as int]);
            assert(out@ =~= old(out)@ + nodes_items(cs@.take(k + 1)));
            assert(refs@ =~= old(refs)@ + nodes_refs(cs@.take(k + 1)));
        }
        k += 1;
    }
    proof {
        assert(cs@.take(cs@.len() as int) =~= cs@);
    }
}

/// Appending a tree appends its items and references to the
/// forest enumeration.
pub proof fn lemma_trees_items_push(ts: Seq<Tree>, t: Tree)
    ensures
        trees_items(ts.push(t)) == trees_items(ts) + node_items(t.root),
        trees_refs(ts.push(t)) == trees_refs(ts) + node_refs(t.root),
{
    assert(ts.push(t).drop_last() =~= ts);
    assert(ts.push(t).last() == t);
}

/// Fold a batch of rows and the items of existing trees into one newly
/// built tree.  The new tree holds exactly the union of the rows and
/// the trees' items; the trees' external references are handed back for
/// the caller to carry over.
pub fn merge(branch_factor: usize, inserts: &Vec<Item>, trees: &Vec<Tree>) -> (out: (
    Tree,
    Vec<TreeRef>,
))
    requires
        2 <= branch_factor,
        1 <= inserts@.len() + trees_items(trees@).len(),
        forall|k: int| 0 <= k < inserts@.len() ==> item_wf(#[trigger] inserts@[k]),
        forall|k: int, j: int|
            0 <= k < trees@.len() && 0 <= j < node_items(trees@[k].root).len() ==> item_wf(
                #[trigger] node_items(trees@[k].root)[j],
            ),
    ensures
        node_items(out.0.root).to_multiset() == (inserts@ + trees_items(
            trees@,
        )).to_multiset(),
        wf_shape(out.0.root),
        wf_place(out.0.root, 0),
        out.0.count == inserts@.len() + trees_items(trees@).len(),
        bounds_is_envelope(out.0.bounds, inserts@ + trees_items(trees@)),
        out.1@ == trees_refs(trees@),
        inserts@.len() + trees_items(trees@).len() < branch_factor ==> out.0.root is Data,
        out.0.root is Branch ==> live_kids((out.0.root->Branch_0).nodes@) >= 2,
        wf_built(out.0.root, branch_factor as int),
    decreases trees@.len(),
{
    let mut rows: Vec<Item> = Vec::new();
    let mut refs: Vec<TreeRef> = Vec::new();
    let mut k: usize = 0;
    while k < inserts.len()
        invariant
            k <= inserts@.len(),
            rows@ == inserts@.take(k as int),
            refs@.len() == 0,
        decreases inserts@.len() - k,
    {
        rows.push(inserts[k]);
        proof {
            assert(inserts@.take(k + 1) =~= inserts@.take(k as int).push(inserts@[k as int]));
        }
        k += 1;
    }
    proof {
        assert(inserts@.take(inserts@.len() as int) =~= inserts@);
        assert(rows@ =~= inserts@ + trees_items(trees@.take(0)));
        assert(refs@ =~= trees_refs(trees@.take(0)));
    }
    let mut k: usize = 0;
    while k < trees.len()
        invariant
            k <= trees@.len(),
            rows@ == inserts@ + trees_items(trees@.take(k as int)),
            refs@ == trees_refs(trees@.take(k as int)),
        decreases trees@.len() - k,
    {
        list_node(&trees[k].root, &mut rows, &mut refs);
        proof {
            assert(trees@.take(k + 1) =~= trees@.take(k as int).push(trees@[k as int]));
            lemma_trees_items_push(trees@.take(k as int), trees@[k as int]);
            assert(rows@ =~= inserts@ + trees_items(trees@.take(k + 1)));
            assert(refs@ =~= trees_refs(trees@.take(k + 1)));
        }
        k += 1;
    }
    proof {
        assert(trees@.take(trees@.len() as int) =~= trees@);
        assert(rows@ == inserts@ + trees_items(trees@));
        assert forall|t: int| 0 <= t < rows@.len() implies item_wf(#[trigger] rows@[t]) by {
            if t >= inserts@.len() {
                lemma_trees_items_index(trees@, t - inserts@.len());
            }
        }
    }
    let tree = Tree::build(branch_factor, &rows);
    (tree, refs)
}

/// Structural equivalence of two nodes: same variant, pivots, leaf
/// items and children throughout.
pub open spec fn node_eq(a: Node, b: Node) -> bool
    decreases a,
{
    match (a, b) {
        (Node::Data(x), Node::Data(y)) => x@ == y@,
        (Node::Ref(r), Node::Ref(s)) => r == s,
        (Node::Branch(ba), Node::Branch(bb)) => {
            &&& ba.pivots@ == bb.pivots@
            &&& ba.intersections@.len() == bb.intersections@.len()
            &&& ba.nodes@.len() == bb.nodes@.len()
            &&& (forall|i: int|
                0 <= i < ba.intersections@.len() ==> node_eq(
                    #[trigger] ba.intersections@[i],
                    bb.intersections@[i],
                ))
            &&& (forall|i: int|
                0 <= i < ba.nodes@.len() ==> node_eq(#[trigger] ba.nodes@[i], bb.nodes@[i]))
        },
        _ => false,
    }
}

/// Pointwise-equal item enumerations concatenate to equal enumerations.
proof fn lemma_children_eq_items(sa: Seq<Node>, sb: Seq<Node>)
    requires
        sa.len() == sb.len(),
        forall|i: int| 0 <= i < sa.len() ==> node_eq(#[trigger] sa[i], sb[i]),
    ensures
        nodes_items(sa) == nodes_items(sb),
        nodes_refs(sa) == nodes_refs(sb),
    decreases sa,
{
    if sa.len() > 0 {
        lemma_node_eq_props(sa[0], sb[0]);
        assert forall|i: int| 0 <= i < sa.drop_first().len() implies node_eq(
            #[trigger] sa.drop_first()[i],
            sb.drop_first()[i],
        ) by {
            assert(sa.drop_first()[i] == sa[i + 1]);
        }
        lemma_children_eq_items(sa.drop_first(), sb.drop_first());
    }
}

/// Structurally equivalent nodes enumerate the same items and
/// references and are equally well formed.
pub proof fn lemma_node_eq_props(a: Node, b: Node)
    requires
        node_eq(a, b),
    ensures
        node_items(a) == node_items(b),
        node_refs(a) == node_refs(b),
        wf_shape(a) == wf_shape(b),
        forall|ax: int| wf_place(a, ax) == #[trigger] wf_place(b, ax),
    decreases a,
{
    match (a, b) {
        (Node::Data(x), Node::Data(y)) => {},
        (Node::Ref(r), Node::Ref(s)) => {},
        (Node::Branch(ba), Node::Branch(bb)) => {
            assert forall|i: int| 0 <= i < ba.intersections@.len() implies (node_items(
                #[trigger] ba.intersections@[i],
            ) == node_items(bb.intersections@[i]) && node_refs(ba.intersections@[i]) == node_refs(
                bb.intersections@[i],
            ) && wf_shape(ba.intersections@[i]) == wf_shape(bb.intersections@[i]) && forall|ax: int|
                wf_place(ba.intersections@[i], ax) == #[trigger] wf_place(
                    bb.intersections@[i],
                    ax,
                )) by {
                lemma_node_eq_props(ba.intersections@[i], bb.intersections@[i]);
            }
            assert forall|i: int| 0 <= i < ba.nodes@.len() implies (node_items(
                #[trigger] ba.nodes@[i],
            ) == node_items(bb.nodes@[i]) && node_refs(ba.nodes@[i]) == node_refs(bb.nodes@[i])
                && wf_shape(ba.nodes@[i]) == wf_shape(bb.nodes@[i]) && forall|ax: int|
                wf_place(ba.nodes@[i], ax) == #[trigger] wf_place(bb.nodes@[i], ax)) by {
                lemma_node_eq_props(ba.nodes@[i], bb.nodes@[i]);
            }
            lemma_children_eq_items(ba.intersections@, bb.intersections@);
            lemma_children_eq_items(ba.nodes@, bb.nodes@);
            assert(wf_shape(a) == wf_shape(b)) by {
                if wf_shape(a) {
                    assert forall|i: int| 0 <= i < bb.intersections@.len() implies wf_shape(
                        #[trigger] bb.intersections@[i],
                    ) by {
                        assert(wf_shape(ba.intersections@[i]));
                    }
                    assert forall|i: int| 0 <= i < bb.nodes@.len() implies wf_shape(
                        #[trigger] bb.nodes@[i],
                    ) by {
                        assert(wf_shape(ba.nodes@[i]));
                    }
                    assert(wf_shape(b));
                }
                if wf_shape(b) {
                    assert forall|i: int| 0 <= i < ba.intersections@.len() implies wf_shape(
                        #[trigger] ba.intersections@[i],
                    ) by {
                        assert(wf_shape(bb.intersections@[i]));
                    }
                    assert forall|i: int| 0 <= i < ba.nodes@.len() implies wf_shape(
                        #[trigger] ba.nodes@[i],
                    ) by {
                        assert(wf_shape(bb.nodes@[i]));
                    }
                    assert(wf_shape(a));
                }
            }
            assert forall|ax: int| wf_place(a, ax) == #[trigger] wf_place(b, ax) by {
                let p = ba.pivots@;
                let m = p.len() as int;
                if wf_place(a, ax) {
                    assert forall|k2: int, it: Item|
                        0 <= k2 < m && #[trigger] node_items(bb.intersections@[k2]).contains(
                            it,
                        ) implies touches(axis_coord(it, ax), p[k2] as int) by {
                        assert(node_items(ba.intersections@[k2]).contains(it));
                    }
                    assert forall|it: Item| node_items(bb.nodes@[0]).contains(it) implies hi(
                        axis_coord(it, ax),
                    ) < p[0] as int by {
                        assert(node_items(ba.nodes@[0]).contains(it));
                    }
                    assert forall|k2: int, it: Item|
                        1 <= k2 < m && #[trigger] node_items(bb.nodes@[k2]).contains(it) implies ((
                        p[k2 - 1] as int) < lo(axis_coord(it, ax)) && hi(axis_coord(it, ax)) < (
                        p[k2] as int)) by {
                        assert(node_items(ba.nodes@[k2]).contains(it));
                    }
                    assert forall|it: Item| node_items(bb.nodes@[m]).contains(it) implies lo(
                        axis_coord(it, ax),
                    ) > p[m - 1] as int by {
                        assert(node_items(ba.nodes@[m]).contains(it));
                    }
                    assert forall|i: int| 0 <= i < m implies wf_place(
                        #[trigger] bb.intersections@[i],
                        1 - ax,
                    ) by {
                        assert(wf_place(ba.intersections@[i], 1 - ax));
                    }
                    assert forall|i: int| 0 <= i <= m implies wf_place(
                        #[trigger] bb.nodes@[i],
                        1 - ax,
                    ) by {
                        assert(wf_place(ba.nodes@[i], 1 - ax));
                    }
                    assert(wf_place(b, ax));
                }
                if wf_place(b, ax) {
                    assert forall|k2: int, it: Item|
                        0 <= k2 < m && #[trigger] node_items(ba.intersections@[k2]).contains(
                            it,
                        ) implies touches(axis_coord(it, ax), p[k2] as int) by {
                        assert(node_items(bb.intersections@[k2]).contains(it));
                    }
                    assert forall|it: Item| node_items(ba.nodes@[0]).contains(it) implies hi(
                        axis_coord(it, ax),
                    ) < p[0] as int by {
                        assert(node_items(bb.nodes@[0]).contains(it));
                    }
                    assert forall|k2: int, it: Item|
                        1 <= k2 < m && #[trigger] node_items(ba.nodes@[k2]).contains(it) implies ((
                        p[k2 - 1] as int) < lo(axis_coord(it, ax)) && hi(axis_coord(it, ax)) < (
                        p[k2] as int)) by {
                        assert(node_items(bb.nodes@[k2]).contains(it));
                    }
                    assert forall|it: Item| node_items(ba.nodes@[m]).contains(it) implies lo(
                        axis_coord(it, ax),
                    ) > p[m - 1] as int by {
                        assert(node_items(bb.nodes@[m]).contains(it));
                    }
                    assert forall|i: int| 0 <= i < m implies wf_place(
                        #[trigger] ba.intersections@[i],
                        1 - ax,
                    ) by {
                        assert(wf_place(bb.intersections@[i], 1 - ax));
                    }
                    assert forall|i: int| 0 <= i <= m implies wf_place(
                        #[trigger] ba.nodes@[i],
                        1 - ax,
                    ) by {
                        assert(wf_place(bb.nodes@[i], 1 - ax));
                    }
                    assert(wf_place(a, ax));
                }
            }
        },
        _ => {},
    }
}

/// Deep copy of a subtree; a query snapshot clones each tree's root.
#[verifier::loop_isolation(false)]
pub fn clone_node(n: &Node) -> (r: Node)
    ensures
        node_eq(r, *n),
    decreases *n,
{
    match n {
        Node::Data(items) => {
            let mut v: Vec<Item> = Vec::new();
            let mut k: usize = 0;
            while k < items.len()
                invariant
                    k <= items@.len(),
                    v@ == items@.take(k as int),
                decreases items@.len() - k,
            {
                v.push(items[k]);
                proof {
                    assert(items@.take(k + 1) =~= items@.take(k as int).push(items@[k as int]));
                }
                k += 1;
            }
            proof {
                assert(items@.take(items@.len() as int) =~= items@);
            }
            Node::Data(v)
        },
        Node::Ref(r0) => Node::Ref(*r0),
        Node::Branch(b) => {
            let mut ps2: Vec<i64> = Vec::new();
            let mut k: usize = 0;
            while k < b.pivots.len()
                invariant
                    k <= b.pivots@.len(),
                    ps2@ == b.pivots@.take(k as int),
                decreases b.pivots@.len() - k,
            {
                ps2.push(b.pivots[k]);
                proof {
                    assert(b.pivots@.take(k + 1) =~= b.pivots@.take(k as int).push(
                        b.pivots@[k as int],
                    ));
                }
                k += 1;
            }
            proof {
                assert(b.pivots@.take(b.pivots@.len() as int) =~= b.pivots@);
            }
            let mut is2: Vec<Node> = Vec::new();
            let mut k: usize = 0;
            while k < b.intersections.len()
                invariant
                    k <= b.intersections@.len(),
                    is2@.len() == k,
                    forall|t: int|
                        0 <= t < k ==> node_eq(#[trigger] is2@[t], b.intersections@[t]),
                decreases b.intersections@.len() - k,
            {
                proof {
                    assert(decreases_to!(*n => b.intersections@[k as int]));
                }
                let c = clone_node(&b.intersections[k]);
                is2.push(c);
                k += 1;
            }
            let mut ns2: Vec<Node> = Vec::new();
            let mut k: usize = 0;
            while k < b.nodes.len()
                invariant
                    k <= b.nodes@.len(),
                    ns2@.len() == k,
                    forall|t: int| 0 <= t < k ==> node_eq(#[trigger] ns2@[t], b.nodes@[t]),
                decreases b.nodes@.len() - k,
            {
                proof {
                    assert(decreases_to!(*n => b.nodes@[k as int]));
                }
                let c = clone_node(&b.nodes[k]);
                ns2.push(c);
                k += 1;
            }
            let r = Node::Branch(Branch { pivots: ps2, intersections: is2, nodes: ns2 });
            proof {
                assert(node_eq(r, *n));
            }
            r
        },
    }
}

/// Every position in a forest's item enumeration comes from one of the
/// trees.
proof fn lemma_trees_items_index(ts: Seq<Tree>, i: int)
    requires
        0 <= i < trees_items(ts).len(),
    ensures
        exists|k: int, j: int|
            0 <= k < ts.len() && 0 <= j < node_items(ts[k].root).len() && trees_items(ts)[i]
                == #[trigger] node_items(ts[k].root)[j],
    decreases ts.len(),
{
    let pre = trees_items(ts.drop_last());
    if i < pre.len() {
        lemma_trees_items_index(ts.drop_last(), i);
        let (k, j) = choose|k: int, j: int|
            0 <= k < ts.drop_last().len() && 0 <= j < node_items(ts.drop_last()[k].root).len()
                && trees_items(ts.drop_last())[i] == #[trigger] node_items(
                ts.drop_last()[k].root,
            )[j];
        assert(ts.drop_last()[k] == ts[k]);
        assert(trees_items(ts)[i] == node_items(ts[k].root)[j]);
    } else {
        let k = ts.len() - 1;
        let j = i - pre.len();
        assert(ts.last() == ts[k]);
        assert(trees_items(ts)[i] == node_items(ts[k].root)[j]);
    }
}

} // verus!
