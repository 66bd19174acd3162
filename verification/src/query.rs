//! The range-query engine: an explicit, lazily driven traversal state
//! machine over one or more trees.
//!
//! A stream holds buffered hits, a stack of pending subtrees and a list
//! of unresolved external tree references.  Each `next` call yields one
//! hit, asks the caller to resolve a reference, or reports the end.

use vstd::prelude::*;
use vstd::multiset::Multiset;
use crate::coord::{lo, hi, coord_matches, overlaps, touches, intersect_iv, intersect_coord};
use crate::tree::{Node, Branch, Tree, Item, TreeRef, node_items, nodes_items, wf_shape,
    wf_place, axis_coord, item_wf};
use crate::Location;

verus! {

broadcast use vstd::multiset::group_multiset_axioms, vstd::multiset::group_multiset_properties;

/// A query bounding box: `((lo_x, lo_y), (hi_x, hi_y))`.
pub type Bbox = ((i64, i64), (i64, i64));

/// Lower bound of the box on the given axis.
pub open spec fn bb_lo(bbox: Bbox, ax: int) -> int {
    if ax == 0 {
        bbox.0.0 as int
    } else {
        bbox.0.1 as int
    }
}

/// Upper bound of the box on the given axis.
pub open spec fn bb_hi(bbox: Bbox, ax: int) -> int {
    if ax == 0 {
        bbox.1.0 as int
    } else {
        bbox.1.1 as int
    }
}

/// The box is non-empty: its lower bound does not exceed its upper
/// bound on any axis.  A box inverted on some axis matches nothing.
pub open spec fn bbox_valid(bbox: Bbox) -> bool {
    bb_lo(bbox, 0) <= bb_hi(bbox, 0) && bb_lo(bbox, 1) <= bb_hi(bbox, 1)
}

/// The item is a result of the box: the box is non-empty and the item
/// intersects it on every axis.  This is the filter the traversal
/// applies at each leaf.
pub open spec fn item_matches(it: Item, bbox: Bbox) -> bool {
    bbox_valid(bbox) && coord_matches(it.point.0, bb_lo(bbox, 0), bb_hi(bbox, 0))
        && coord_matches(it.point.1, bb_lo(bbox, 1), bb_hi(bbox, 1))
}

/// The box contains the item entirely on every axis.
pub open spec fn item_within(it: Item, bbox: Bbox) -> bool {
    bb_lo(bbox, 0) <= lo(it.point.0) && hi(it.point.0) <= bb_hi(bbox, 0) && bb_lo(bbox, 1) <= lo(
        it.point.1,
    ) && hi(it.point.1) <= bb_hi(bbox, 1)
}

/// The hits the traversal yields from one subtree at axis `ax`:
/// matching, untombstoned leaf items of every child whose region the
/// box reaches.  Contents behind `Ref` nodes are not included; they
/// surface through the stream's reference list instead.
pub open spec fn query_node(n: Node, ax: int, bbox: Bbox, ts: Seq<Location>) -> Multiset<Item>
    decreases n,
{
    match n {
        Node::Data(items) => items@.filter(
            |it: Item| item_matches(it, bbox) && !ts.contains(it.loc),
        ).to_multiset(),
        Node::Ref(_) => Multiset::<Item>::empty(),
        Node::Branch(b) => {
            let p = b.pivots@;
            let m = p.len() as int;
            if m >= 1 && b.intersections@.len() == m && b.nodes@.len() == m + 1 {
                query_buckets(b.intersections@, p, ax, bbox, ts).add(
                    (if bb_lo(bbox, ax) <= p[0] as int {
                        query_node(b.nodes@[0], 1 - ax, bbox, ts)
                    } else {
                        Multiset::<Item>::empty()
                    }).add(
                        query_slabs(b.nodes@.subrange(1, m), p, ax, bbox, ts).add(
                            if bb_hi(bbox, ax) >= p[m - 1] as int {
                                query_node(b.nodes@[m], 1 - ax, bbox, ts)
                            } else {
                                Multiset::<Item>::empty()
                            },
                        ),
                    ),
                )
            } else {
                Multiset::<Item>::empty()
            }
        },
    }
}

/// Hits from the intersection buckets: bucket `k` is visited when its
/// pivot lies inside the box's range on this axis.
pub open spec fn query_buckets(
    bs: Seq<Node>,
    p: Seq<i64>,
    ax: int,
    bbox: Bbox,
    ts: Seq<Location>,
) -> Multiset<Item>
    decreases bs,
{
    if bs.len() == 0 || p.len() == 0 {
        Multiset::<Item>::empty()
    } else {
        (if bb_lo(bbox, ax) <= p[0] as int <= bb_hi(bbox, ax) {
            query_node(bs[0], 1 - ax, bbox, ts)
        } else {
            Multiset::<Item>::empty()
        }).add(query_buckets(bs.drop_first(), p.drop_first(), ax, bbox, ts))
    }
}

/// Hits from the middle partition children: slab `k`, covering
/// `[p[k], p[k+1]]`, is visited when it overlaps the box's range.
pub open spec fn query_slabs(
    ns: Seq<Node>,
    p: Seq<i64>,
    ax: int,
    bbox: Bbox,
    ts: Seq<Location>,
) -> Multiset<Item>
    decreases ns,
{
    if ns.len() == 0 || p.len() < 2 {
        Multiset::<Item>::empty()
    } else {
        (if overlaps(p[0] as int, p[1] as int, bb_lo(bbox, ax), bb_hi(bbox, ax)) {
            query_node(ns[0], 1 - ax, bbox, ts)
        } else {
            Multiset::<Item>::empty()
        }).add(query_slabs(ns.drop_first(), p.drop_first(), ax, bbox, ts))
    }
}

/// Number of nodes and leaf slots in a subtree; the traversal's
/// termination measure.
pub open spec fn node_size(n: Node) -> nat
    decreases n,
{
    match n {
        Node::Data(items) => 1 + items@.len(),
        Node::Ref(_) => 1,
        Node::Branch(b) => 1 + nodes_size(b.intersections@) + nodes_size(b.nodes@),
    }
}

/// Total size of a sequence of sibling subtrees.
pub open spec fn nodes_size(s: Seq<Node>) -> nat
    decreases s,
{
    if s.len() == 0 {
        0
    } else {
        node_size(s[0]) + nodes_size(s.drop_first())
    }
}

/// Appending a sibling adds its size.
pub proof fn lemma_nodes_size_push(s: Seq<Node>, c: Node)
    ensures
        nodes_size(s.push(c)) == nodes_size(s) + node_size(c),
    decreases s.len(),
{
    if s.len() == 0 {
        assert(s.push(c).drop_first() =~= Seq::<Node>::empty());
        assert(s.push(c)[0] == c);
        assert(nodes_size(s.push(c)) == node_size(c) + nodes_size(Seq::<Node>::empty()));
    } else {
        assert(s.push(c).drop_first() =~= s.drop_first().push(c));
        assert(s.push(c)[0] == s[0]);
        lemma_nodes_size_push(s.drop_first(), c);
        assert(nodes_size(s.push(c)) == node_size(s[0]) + (nodes_size(s.drop_first())
            + node_size(c)));
    }
}

/// Structurally equivalent nodes yield the same query results.
pub proof fn lemma_node_eq_query(a: Node, b: Node, ax: int, bbox: Bbox, ts: Seq<Location>)
    requires
        crate::tree::node_eq(a, b),
    ensures
        query_node(a, ax, bbox, ts) == query_node(b, ax, bbox, ts),
    decreases a,
{
    match (a, b) {
        (Node::Data(x), Node::Data(y)) => {},
        (Node::Ref(r), Node::Ref(s)) => {},
        (Node::Branch(ba), Node::Branch(bb)) => {
            let p = ba.pivots@;
            let m = p.len() as int;
            if m >= 1 && ba.intersections@.len() == m && ba.nodes@.len() == m + 1 {
                lemma_children_eq_buckets(ba.intersections@, bb.intersections@, p, ax, bbox, ts);
                assert forall|i: int|
                    0 <= i < ba.nodes@.subrange(1, m).len() implies crate::tree::node_eq(
                    #[trigger] ba.nodes@.subrange(1, m)[i],
                    bb.nodes@.subrange(1, m)[i],
                ) by {
                    assert(ba.nodes@.subrange(1, m)[i] == ba.nodes@[i + 1]);
                    assert(bb.nodes@.subrange(1, m)[i] == bb.nodes@[i + 1]);
                }
                lemma_children_eq_slabs(
                    ba.nodes@.subrange(1, m),
                    bb.nodes@.subrange(1, m),
                    p,
                    ax,
                    bbox,
                    ts,
                );
                lemma_node_eq_query(ba.nodes@[0], bb.nodes@[0], 1 - ax, bbox, ts);
                lemma_node_eq_query(ba.nodes@[m], bb.nodes@[m], 1 - ax, bbox, ts);
            }
        },
        _ => {},
    }
}

/// Pointwise equivalent buckets yield the same bucket results.
proof fn lemma_children_eq_buckets(
    sa: Seq<Node>,
    sb: Seq<Node>,
    p: Seq<i64>,
    ax: int,
    bbox: Bbox,
    ts: Seq<Location>,
)
    requires
        sa.len() == sb.len(),
        forall|i: int| 0 <= i < sa.len() ==> crate::tree::node_eq(#[trigger] sa[i], sb[i]),
    ensures
        query_buckets(sa, p, ax, bbox, ts) == query_buckets(sb, p, ax, bbox, ts),
    decreases sa,
{
    if sa.len() > 0 && p.len() > 0 {
        lemma_node_eq_query(sa[0], sb[0], 1 - ax, bbox, ts);
        assert forall|i: int| 0 <= i < sa.drop_first().len() implies crate::tree::node_eq(
            #[trigger] sa.drop_first()[i],
            sb.drop_first()[i],
        ) by {
            assert(sa.drop_first()[i] == sa[i + 1]);
        }
        lemma_children_eq_buckets(sa.drop_first(), sb.drop_first(), p.drop_first(), ax, bbox, ts);
    }
}

/// Pointwise equivalent slab children yield the same slab results.
proof fn lemma_children_eq_slabs(
    sa: Seq<Node>,
    sb: Seq<Node>,
    p: Seq<i64>,
    ax: int,
    bbox: Bbox,
    ts: Seq<Location>,
)
    requires
        sa.len() == sb.len(),
        forall|i: int| 0 <= i < sa.len() ==> crate::tree::node_eq(#[trigger] sa[i], sb[i]),
    ensures
        query_slabs(sa, p, ax, bbox, ts) == query_slabs(sb, p, ax, bbox, ts),
    decreases sa,
{
    if sa.len() > 0 && p.len() >= 2 {
        lemma_node_eq_query(sa[0], sb[0], 1 - ax, bbox, ts);
        assert forall|i: int| 0 <= i < sa.drop_first().len() implies crate::tree::node_eq(
            #[trigger] sa.drop_first()[i],
            sb.drop_first()[i],
        ) by {
            assert(sa.drop_first()[i] == sa[i + 1]);
        }
        lemma_children_eq_slabs(sa.drop_first(), sb.drop_first(), p.drop_first(), ax, bbox, ts);
    }
}

/// A sequence is its prefix plus its last element.
proof fn lemma_last_split<A>(s: Seq<A>)
    requires
        s.len() >= 1,
    ensures
        s =~= s.drop_last().push(s.last()),
{
}

/// Removing the last sibling removes its size.
pub proof fn lemma_nodes_size_drop_last(s: Seq<Node>)
    requires
        s.len() >= 1,
    ensures
        nodes_size(s) == nodes_size(s.drop_last()) + node_size(s.last()),
{
    lemma_last_split(s);
    lemma_nodes_size_push(s.drop_last(), s.last());
}

/// The bucket results split off the last bucket's contribution.
proof fn lemma_buckets_drop_last(bs: Seq<Node>, p: Seq<i64>, ax: int, bbox: Bbox, ts: Seq<
    Location,
>)
    requires
        bs.len() >= 1,
        p.len() >= bs.len(),
    ensures
        query_buckets(bs, p, ax, bbox, ts) == query_buckets(bs.drop_last(), p, ax, bbox, ts).add(
            if bb_lo(bbox, ax) <= p[bs.len() - 1] as int <= bb_hi(bbox, ax) {
                query_node(bs.last(), 1 - ax, bbox, ts)
            } else {
                Multiset::<Item>::empty()
            },
        ),
    decreases bs.len(),
{
    let last_part = if bb_lo(bbox, ax) <= p[bs.len() - 1] as int <= bb_hi(bbox, ax) {
        query_node(bs.last(), 1 - ax, bbox, ts)
    } else {
        Multiset::<Item>::empty()
    };
    if bs.len() == 1 {
        assert(bs.drop_last() =~= Seq::<Node>::empty());
        assert(bs[0] == bs.last());
        assert(query_buckets(bs.drop_last(), p, ax, bbox, ts) == Multiset::<Item>::empty());
        assert(bs.drop_first() =~= Seq::<Node>::empty());
        assert(query_buckets(bs.drop_first(), p.drop_first(), ax, bbox, ts) == Multiset::<
            Item,
        >::empty());
        assert(query_buckets(bs, p, ax, bbox, ts) == (if bb_lo(bbox, ax) <= p[0] as int <= bb_hi(
            bbox,
            ax,
        ) {
            query_node(bs[0], 1 - ax, bbox, ts)
        } else {
            Multiset::<Item>::empty()
        }).add(query_buckets(bs.drop_first(), p.drop_first(), ax, bbox, ts)));
        assert(query_buckets(bs, p, ax, bbox, ts) =~= query_buckets(
            bs.drop_last(),
            p,
            ax,
            bbox,
            ts,
        ).add(last_part));
    } else {
        lemma_buckets_drop_last(bs.drop_first(), p.drop_first(), ax, bbox, ts);
        assert(bs.drop_first().drop_last() =~= bs.drop_last().drop_first());
        assert(bs.drop_first().last() == bs.last());
        assert(bs.drop_first().len() - 1 == bs.len() - 2);
        assert(p.drop_first()[bs.len() - 2] == p[bs.len() - 1]);
        assert(bs.drop_last()[0] == bs[0]);
        assert(query_buckets(bs, p, ax, bbox, ts) =~= query_buckets(
            bs.drop_last(),
            p,
            ax,
            bbox,
            ts,
        ).add(last_part));
    }
}

/// The slab results split off the last slab's contribution.
proof fn lemma_slabs_drop_last(ns: Seq<Node>, p: Seq<i64>, ax: int, bbox: Bbox, ts: Seq<Location>)
    requires
        ns.len() >= 1,
        p.len() >= ns.len() + 1,
    ensures
        query_slabs(ns, p, ax, bbox, ts) == query_slabs(ns.drop_last(), p, ax, bbox, ts).add(
            if overlaps(
                p[ns.len() - 1] as int,
                p[ns.len() as int] as int,
                bb_lo(bbox, ax),
                bb_hi(bbox, ax),
            ) {
                query_node(ns.last(), 1 - ax, bbox, ts)
            } else {
                Multiset::<Item>::empty()
            },
        ),
    decreases ns.len(),
{
    let last_part = if overlaps(
        p[ns.len() - 1] as int,
        p[ns.len() as int] as int,
        bb_lo(bbox, ax),
        bb_hi(bbox, ax),
    ) {
        query_node(ns.last(), 1 - ax, bbox, ts)
    } else {
        Multiset::<Item>::empty()
    };
    if ns.len() == 1 {
        assert(ns.drop_last() =~= Seq::<Node>::empty());
        assert(ns[0] == ns.last());
        assert(query_slabs(ns.drop_last(), p, ax, bbox, ts) == Multiset::<Item>::empty());
        assert(ns.drop_first() =~= Seq::<Node>::empty());
        assert(query_slabs(ns.drop_first(), p.drop_first(), ax, bbox, ts) == Multiset::<
            Item,
        >::empty());
        assert(query_slabs(ns, p, ax, bbox, ts) == (if overlaps(
            p[0] as int,
            p[1] as int,
            bb_lo(bbox, ax),
            bb_hi(bbox, ax),
        ) {
            query_node(ns[0], 1 - ax, bbox, ts)
        } else {
            Multiset::<Item>::empty()
        }).add(query_slabs(ns.drop_first(), p.drop_first(), ax, bbox, ts)));
        assert(query_slabs(ns, p, ax, bbox, ts) =~= query_slabs(
            ns.drop_last(),
            p,
            ax,
            bbox,
            ts,
        ).add(last_part));
    } else {
        lemma_slabs_drop_last(ns.drop_first(), p.drop_first(), ax, bbox, ts);
        assert(ns.drop_first().drop_last() =~= ns.drop_last().drop_first());
        assert(ns.drop_first().last() == ns.last());
        assert(p.drop_first()[ns.len() - 2] == p[ns.len() - 1]);
        assert(p.drop_first()[ns.len() - 1] == p[ns.len() as int]);
        assert(ns.drop_last()[0] == ns[0]);
        assert(query_slabs(ns, p, ax, bbox, ts) =~= query_slabs(
            ns.drop_last(),
            p,
            ax,
            bbox,
            ts,
        ).add(last_part));
    }
}

/// Membership in a tombstone list.
pub(crate) fn tombs_contain(ts: &Vec<Location>, loc: Location) -> (r: bool)
    ensures
        r == ts@.contains(loc),
{
    let mut k: usize = 0;
    while k < ts.len()
        invariant
            k <= ts@.len(),
            forall|t: int| 0 <= t < k ==> ts@[t] != loc,
        decreases ts@.len() - k,
    {
        let e = ts[k];
        if e.0 == loc.0 && e.1 == loc.1 {
            proof {
                assert(ts@[k as int] == loc);
            }
            return true;
        }
        k += 1;
    }
    proof {
        if ts@.contains(loc) {
            let t = choose|t: int| 0 <= t < ts@.len() && ts@[t] == loc;
            assert(false);
        }
    }
    false
}

/// The items of a sibling sequence split into the first child, the
/// middle children and the last child.
proof fn lemma_nodes_items_split(s: Seq<Node>)
    requires
        s.len() >= 2,
    ensures
        nodes_items(s).to_multiset() == node_items(s[0]).to_multiset().add(
            nodes_items(s.subrange(1, s.len() - 1)).to_multiset().add(
                node_items(s.last()).to_multiset(),
            ),
        ),
{
    let mid = s.subrange(1, s.len() - 1);
    assert(s =~= seq![s[0]] + (mid + seq![s.last()]));
    assert(nodes_items(seq![s[0]]) =~= node_items(s[0])) by {
        assert(seq![s[0]].drop_first() =~= Seq::<Node>::empty());
        assert(seq![s[0]][0] == s[0]);
        assert(nodes_items(seq![s[0]]) == node_items(s[0]) + nodes_items(Seq::<Node>::empty()));
    }
    assert(nodes_items(seq![s.last()]) =~= node_items(s.last())) by {
        assert(seq![s.last()].drop_first() =~= Seq::<Node>::empty());
        assert(seq![s.last()][0] == s.last());
        assert(nodes_items(seq![s.last()]) == node_items(s.last()) + nodes_items(
            Seq::<Node>::empty(),
        ));
    }
    lemma_nodes_items_add(seq![s[0]], mid + seq![s.last()]);
    lemma_nodes_items_add(mid, seq![s.last()]);
    crate::perm::lemma_ms_add(nodes_items(seq![s[0]]), nodes_items(mid + seq![s.last()]));
    crate::perm::lemma_ms_add(nodes_items(mid), nodes_items(seq![s.last()]));
    assert(nodes_items(s).to_multiset() =~= node_items(s[0]).to_multiset().add(
        nodes_items(mid).to_multiset().add(node_items(s.last()).to_multiset()),
    ));
}

/// Item enumeration distributes over concatenation of siblings.
proof fn lemma_nodes_items_add(a: Seq<Node>, b: Seq<Node>)
    ensures
        nodes_items(a + b) == nodes_items(a) + nodes_items(b),
    decreases a.len(),
{
    if a.len() == 0 {
        assert(a + b =~= b);
        assert(nodes_items(a) =~= Seq::<Item>::empty());
        assert(nodes_items(a) + nodes_items(b) =~= nodes_items(b));
    } else {
        assert((a + b).drop_first() =~= a.drop_first() + b);
        assert((a + b)[0] == a[0]);
        lemma_nodes_items_add(a.drop_first(), b);
        assert(nodes_items(a + b) =~= nodes_items(a) + nodes_items(b));
    }
}

/// Soundness of the traversal: everything a query yields from a
/// subtree is a matching, untombstoned item stored in that subtree.
pub proof fn lemma_query_sound(n: Node, ax: int, bbox: Bbox, ts: Seq<Location>)
    ensures
        forall|it: Item|
            #[trigger] query_node(n, ax, bbox, ts).count(it) > 0 ==> item_matches(it, bbox)
                && !ts.contains(it.loc),
        query_node(n, ax, bbox, ts).subset_of(node_items(n).to_multiset()),
    decreases n,
{
    match n {
        Node::Data(items) => {
            let pred = |it: Item| item_matches(it, bbox) && !ts.contains(it.loc);
            assert forall|it: Item| #![trigger query_node(n, ax, bbox, ts).count(it)]
                query_node(n, ax, bbox, ts).count(it) <= node_items(n).to_multiset().count(it) && (
            query_node(n, ax, bbox, ts).count(it) > 0 ==> item_matches(it, bbox) && !ts.contains(
                it.loc,
            )) by {
                crate::perm::lemma_filter_count(items@, pred, it);
            }
            assert(query_node(n, ax, bbox, ts).subset_of(node_items(n).to_multiset()));
        },
        Node::Ref(_) => {
            assert(query_node(n, ax, bbox, ts).subset_of(node_items(n).to_multiset()));
        },
        Node::Branch(b) => {
            let p = b.pivots@;
            let m = p.len() as int;
            if m >= 1 && b.intersections@.len() == m && b.nodes@.len() == m + 1 {
                lemma_buckets_sound(b.intersections@, p, ax, bbox, ts);
                lemma_slabs_sound(b.nodes@.subrange(1, m), p, ax, bbox, ts);
                lemma_query_sound(b.nodes@[0], 1 - ax, bbox, ts);
                lemma_query_sound(b.nodes@[m], 1 - ax, bbox, ts);
                lemma_nodes_items_split(b.nodes@);
                crate::perm::lemma_ms_add(
                    nodes_items(b.intersections@),
                    nodes_items(b.nodes@),
                );
                assert(b.nodes@.last() == b.nodes@[m]);
                assert forall|e: Item| #![trigger query_node(n, ax, bbox, ts).count(e)]
                    query_node(n, ax, bbox, ts).count(e) <= node_items(n).to_multiset().count(
                    e,
                ) by {
                    assert(query_buckets(b.intersections@, p, ax, bbox, ts).count(e)
                        <= nodes_items(b.intersections@).to_multiset().count(e));
                    assert(query_slabs(b.nodes@.subrange(1, m), p, ax, bbox, ts).count(e)
                        <= nodes_items(b.nodes@.subrange(1, m)).to_multiset().count(e));
                    assert(query_node(b.nodes@[0], 1 - ax, bbox, ts).count(e) <= node_items(
                        b.nodes@[0],
                    ).to_multiset().count(e));
                    assert(query_node(b.nodes@[m], 1 - ax, bbox, ts).count(e) <= node_items(
                        b.nodes@[m],
                    ).to_multiset().count(e));
                }
                assert(query_node(n, ax, bbox, ts).subset_of(node_items(n).to_multiset()));
            } else {
                assert(query_node(n, ax, bbox, ts) == Multiset::<Item>::empty());
                assert(query_node(n, ax, bbox, ts).subset_of(node_items(n).to_multiset()));
            }
        },
    }
}

/// Soundness for a bucket sequence.
proof fn lemma_buckets_sound(bs: Seq<Node>, p: Seq<i64>, ax: int, bbox: Bbox, ts: Seq<Location>)
    ensures
        forall|it: Item|
            #[trigger] query_buckets(bs, p, ax, bbox, ts).count(it) > 0 ==> item_matches(it, bbox)
                && !ts.contains(it.loc),
        query_buckets(bs, p, ax, bbox, ts).subset_of(nodes_items(bs).to_multiset()),
    decreases bs,
{
    if bs.len() == 0 || p.len() == 0 {
        broadcast use vstd::seq_lib::group_to_multiset_ensures;

    } else {
        lemma_query_sound(bs[0], 1 - ax, bbox, ts);
        lemma_buckets_sound(bs.drop_first(), p.drop_first(), ax, bbox, ts);
        crate::perm::lemma_ms_add(node_items(bs[0]), nodes_items(bs.drop_first()));
    }
}

/// Soundness for a slab sequence.
proof fn lemma_slabs_sound(ns: Seq<Node>, p: Seq<i64>, ax: int, bbox: Bbox, ts: Seq<Location>)
    ensures
        forall|it: Item|
            #[trigger] query_slabs(ns, p, ax, bbox, ts).count(it) > 0 ==> item_matches(it, bbox)
                && !ts.contains(it.loc),
        query_slabs(ns, p, ax, bbox, ts).subset_of(nodes_items(ns).to_multiset()),
    decreases ns,
{
    if ns.len() == 0 || p.len() < 2 {
        broadcast use vstd::seq_lib::group_to_multiset_ensures;

    } else {
        lemma_query_sound(ns[0], 1 - ax, bbox, ts);
        lemma_slabs_sound(ns.drop_first(), p.drop_first(), ax, bbox, ts);
        crate::perm::lemma_ms_add(node_items(ns[0]), nodes_items(ns.drop_first()));
    }
}

/// Completeness of the traversal: on a well-placed subtree, a query
/// whose box contains an item entirely reaches every occurrence of it.
pub proof fn lemma_query_complete(n: Node, ax: int, bbox: Bbox, ts: Seq<Location>, it: Item)
    requires
        wf_shape(n),
        wf_place(n, ax),
        ax == 0 || ax == 1,
        item_wf(it),
        item_within(it, bbox),
        !ts.contains(it.loc),
    ensures
        query_node(n, ax, bbox, ts).count(it) >= node_items(n).to_multiset().count(it),
    decreases n,
{
    broadcast use vstd::seq_lib::group_to_multiset_ensures;

    match n {
        Node::Data(items) => {
            let pred = |itx: Item| item_matches(itx, bbox) && !ts.contains(itx.loc);
            crate::perm::lemma_filter_count(items@, pred, it);
            assert(item_matches(it, bbox));
        },
        Node::Ref(_) => {},
        Node::Branch(b) => {
            let p = b.pivots@;
            let m = p.len() as int;
            assert(m >= 1 && b.intersections@.len() == m && b.nodes@.len() == m + 1);
            assert forall|i: int| 0 <= i < m implies (forall|itx: Item|
                node_items(#[trigger] b.intersections@[i]).contains(itx) ==> touches(
                    axis_coord(itx, ax),
                    p[i] as int,
                )) by {}
            lemma_buckets_complete(b.intersections@, p, ax, bbox, ts, it);
            lemma_slabs_complete(b.nodes@, p, ax, bbox, ts, it);
            // first partition child
            let c0 = b.nodes@[0];
            if node_items(c0).to_multiset().count(it) > 0 {
                assert(node_items(c0).contains(it));
                assert(hi(axis_coord(it, ax)) < p[0] as int);
                assert(bb_lo(bbox, ax) <= lo(axis_coord(it, ax)));
                assert(bb_lo(bbox, ax) <= p[0] as int);
                lemma_query_complete(c0, 1 - ax, bbox, ts, it);
            } else {
                if bb_lo(bbox, ax) <= p[0] as int {
                    lemma_query_complete(c0, 1 - ax, bbox, ts, it);
                }
            }
            // last partition child
            let cl = b.nodes@[m];
            if node_items(cl).to_multiset().count(it) > 0 {
                assert(node_items(cl).contains(it));
                assert(lo(axis_coord(it, ax)) > p[m - 1] as int);
                assert(bb_hi(bbox, ax) >= hi(axis_coord(it, ax)));
                assert(bb_hi(bbox, ax) >= p[m - 1] as int);
                lemma_query_complete(cl, 1 - ax, bbox, ts, it);
            } else {
                if bb_hi(bbox, ax) >= p[m - 1] as int {
                    lemma_query_complete(cl, 1 - ax, bbox, ts, it);
                }
            }
            lemma_nodes_items_split(b.nodes@);
            crate::perm::lemma_ms_add(nodes_items(b.intersections@), nodes_items(b.nodes@));
            assert(b.nodes@.last() == b.nodes@[m]);
        },
    }
}

/// Completeness for a bucket sequence: every bucket whose items touch
/// its pivot is reached when the box contains such an item.
proof fn lemma_buckets_complete(
    bs: Seq<Node>,
    p: Seq<i64>,
    ax: int,
    bbox: Bbox,
    ts: Seq<Location>,
    it: Item,
)
    requires
        bs.len() <= p.len(),
        ax == 0 || ax == 1,
        forall|i: int| 0 <= i < bs.len() ==> wf_shape(#[trigger] bs[i]),
        forall|i: int| 0 <= i < bs.len() ==> wf_place(#[trigger] bs[i], 1 - ax),
        forall|i: int, itx: Item|
            0 <= i < bs.len() && #[trigger] node_items(bs[i]).contains(itx) ==> touches(
                axis_coord(itx, ax),
                p[i] as int,
            ),
        item_wf(it),
        item_within(it, bbox),
        !ts.contains(it.loc),
    ensures
        query_buckets(bs, p, ax, bbox, ts).count(it) >= nodes_items(bs).to_multiset().count(it),
    decreases bs,
{
    broadcast use vstd::seq_lib::group_to_multiset_ensures;

    if bs.len() == 0 {
    } else {
        assert forall|i: int| 0 <= i < bs.drop_first().len() implies wf_shape(
            #[trigger] bs.drop_first()[i],
        ) && wf_place(bs.drop_first()[i], 1 - ax) by {
            assert(bs.drop_first()[i] == bs[i + 1]);
        }
        assert forall|i: int, itx: Item|
            0 <= i < bs.drop_first().len() && #[trigger] node_items(bs.drop_first()[i]).contains(
                itx,
            ) implies touches(axis_coord(itx, ax), p.drop_first()[i] as int) by {
            assert(bs.drop_first()[i] == bs[i + 1]);
            assert(p.drop_first()[i] == p[i + 1]);
        }
        lemma_buckets_complete(bs.drop_first(), p.drop_first(), ax, bbox, ts, it);
        if node_items(bs[0]).to_multiset().count(it) > 0 {
            assert(node_items(bs[0]).contains(it));
            assert(touches(axis_coord(it, ax), p[0] as int));
            assert(bb_lo(bbox, ax) <= lo(axis_coord(it, ax)));
            assert(bb_hi(bbox, ax) >= hi(axis_coord(it, ax)));
            lemma_query_complete(bs[0], 1 - ax, bbox, ts, it);
        }
        crate::perm::lemma_ms_add(node_items(bs[0]), nodes_items(bs.drop_first()));
    }
}

/// Completeness for the middle partition children of a branch.
proof fn lemma_slabs_complete(
    ns: Seq<Node>,
    p: Seq<i64>,
    ax: int,
    bbox: Bbox,
    ts: Seq<Location>,
    it: Item,
)
    requires
        ns.len() == p.len() + 1,
        p.len() >= 1,
        ax == 0 || ax == 1,
        forall|i: int| 0 <= i < ns.len() ==> wf_shape(#[trigger] ns[i]),
        forall|i: int| 0 <= i < ns.len() ==> wf_place(#[trigger] ns[i], 1 - ax),
        forall|k: int, itx: Item|
            1 <= k < p.len() && #[trigger] node_items(ns[k]).contains(itx) ==> ((p[k - 1] as int)
                < lo(axis_coord(itx, ax)) && hi(axis_coord(itx, ax)) < (p[k] as int)),
        item_wf(it),
        item_within(it, bbox),
        !ts.contains(it.loc),
    ensures
        query_slabs(ns.subrange(1, p.len() as int), p, ax, bbox, ts).count(it) >= nodes_items(
            ns.subrange(1, p.len() as int),
        ).to_multiset().count(it),
    decreases ns,
{
    lemma_slabs_complete_sub(ns.subrange(1, p.len() as int), p, ax, bbox, ts, it);
}

/// Completeness for a slab window: child `i` holds items strictly
/// inside `(p[i], p[i + 1])`.
proof fn lemma_slabs_complete_sub(
    ms: Seq<Node>,
    p: Seq<i64>,
    ax: int,
    bbox: Bbox,
    ts: Seq<Location>,
    it: Item,
)
    requires
        ms.len() + 1 <= p.len(),
        ax == 0 || ax == 1,
        forall|i: int| 0 <= i < ms.len() ==> wf_shape(#[trigger] ms[i]),
        forall|i: int| 0 <= i < ms.len() ==> wf_place(#[trigger] ms[i], 1 - ax),
        forall|i: int, itx: Item|
            0 <= i < ms.len() && #[trigger] node_items(ms[i]).contains(itx) ==> ((p[i] as int) < lo(
                axis_coord(itx, ax),
            ) && hi(axis_coord(itx, ax)) < (p[i + 1] as int)),
        item_wf(it),
        item_within(it, bbox),
        !ts.contains(it.loc),
    ensures
        query_slabs(ms, p, ax, bbox, ts).count(it) >= nodes_items(ms).to_multiset().count(it),
    decreases ms,
{
    broadcast use vstd::seq_lib::group_to_multiset_ensures;

    if ms.len() == 0 {
    } else {
        assert forall|i: int| 0 <= i < ms.drop_first().len() implies wf_shape(
            #[trigger] ms.drop_first()[i],
        ) && wf_place(ms.drop_first()[i], 1 - ax) by {
            assert(ms.drop_first()[i] == ms[i + 1]);
        }
        assert forall|i: int, itx: Item|
            0 <= i < ms.drop_first().len() && #[trigger] node_items(ms.drop_first()[i]).contains(
                itx,
            ) implies ((p.drop_first()[i] as int) < lo(axis_coord(itx, ax)) && hi(
            axis_coord(itx, ax),
        ) < (p.drop_first()[i + 1] as int)) by {
            assert(ms.drop_first()[i] == ms[i + 1]);
            assert(p.drop_first()[i] == p[i + 1]);
            assert(p.drop_first()[i + 1] == p[i + 2]);
        }
        lemma_slabs_complete_sub(ms.drop_first(), p.drop_first(), ax, bbox, ts, it);
        if node_items(ms[0]).to_multiset().count(it) > 0 {
            assert(node_items(ms[0]).contains(it));
            assert((p[0] as int) < lo(axis_coord(it, ax)) && hi(axis_coord(it, ax)) < (
            p[1] as int));
            assert(bb_lo(bbox, ax) <= lo(axis_coord(it, ax)));
            assert(bb_hi(bbox, ax) >= hi(axis_coord(it, ax)));
            assert(lo(axis_coord(it, ax)) <= hi(axis_coord(it, ax)));
            assert(overlaps(p[0] as int, p[1] as int, bb_lo(bbox, ax), bb_hi(bbox, ax)));
            lemma_query_complete(ms[0], 1 - ax, bbox, ts, it);
        }
        crate::perm::lemma_ms_add(node_items(ms[0]), nodes_items(ms.drop_first()));
    }
}

/// One answer of the stream: a matching row, a request to resolve an
/// external tree, or the end of the results.
pub enum QueryPoll {
    Hit(Item),
    NeedTree(TreeRef),
    Done,
}

/// Results still to come from the pending subtree cursors.
pub open spec fn cursors_ms(cs: Seq<(usize, Node)>, bbox: Bbox, ts: Seq<Location>) -> Multiset<
    Item,
>
    decreases cs,
{
    if cs.len() == 0 {
        Multiset::<Item>::empty()
    } else {
        query_node(cs[0].1, cs[0].0 as int, bbox, ts).add(cursors_ms(cs.drop_first(), bbox, ts))
    }
}

/// Appending a cursor adds its subtree's results.
pub proof fn lemma_cursors_ms_push(cs: Seq<(usize, Node)>, c: (usize, Node), bbox: Bbox, ts: Seq<
    Location,
>)
    ensures
        cursors_ms(cs.push(c), bbox, ts) == cursors_ms(cs, bbox, ts).add(
            query_node(c.1, c.0 as int, bbox, ts),
        ),
    decreases cs,
{
    if cs.len() == 0 {
        assert(cs.push(c).drop_first() =~= Seq::<(usize, Node)>::empty());
        assert(cs.push(c)[0] == c);
        assert(cursors_ms(cs.push(c), bbox, ts) == query_node(
            cs.push(c)[0].1,
            cs.push(c)[0].0 as int,
            bbox,
            ts,
        ).add(cursors_ms(cs.push(c).drop_first(), bbox, ts)));
        assert(cursors_ms(cs.push(c).drop_first(), bbox, ts) == Multiset::<Item>::empty());
        assert(cursors_ms(cs, bbox, ts) == Multiset::<Item>::empty());
        assert(cursors_ms(cs.push(c), bbox, ts) =~= cursors_ms(cs, bbox, ts).add(
            query_node(c.1, c.0 as int, bbox, ts),
        ));
    } else {
        assert(cs.push(c).drop_first() =~= cs.drop_first().push(c));
        assert(cs.push(c)[0] == cs[0]);
        lemma_cursors_ms_push(cs.drop_first(), c, bbox, ts);
        assert(cursors_ms(cs.push(c), bbox, ts) == query_node(cs[0].1, cs[0].0 as int, bbox, ts).add(
            cursors_ms(cs.drop_first(), bbox, ts).add(query_node(c.1, c.0 as int, bbox, ts)),
        ));
        assert(cursors_ms(cs.push(c), bbox, ts) =~= cursors_ms(cs, bbox, ts).add(
            query_node(c.1, c.0 as int, bbox, ts),
        ));
    }
}

/// Total size of the pending cursors; part of the traversal measure.
pub open spec fn cursors_size(cs: Seq<(usize, Node)>) -> nat
    decreases cs,
{
    if cs.len() == 0 {
        0
    } else {
        node_size(cs[0].1) + cursors_size(cs.drop_first())
    }
}

/// Appending a cursor adds its subtree's size.
pub proof fn lemma_cursors_size_push(cs: Seq<(usize, Node)>, c: (usize, Node))
    ensures
        cursors_size(cs.push(c)) == cursors_size(cs) + node_size(c.1),
    decreases cs,
{
    if cs.len() == 0 {
        assert(cs.push(c).drop_first() =~= Seq::<(usize, Node)>::empty());
        assert(cs.push(c)[0] == c);
        assert(cursors_size(cs.push(c)) == node_size(c.1) + cursors_size(
            Seq::<(usize, Node)>::empty(),
        ));
    } else {
        assert(cs.push(c).drop_first() =~= cs.drop_first().push(c));
        assert(cs.push(c)[0] == cs[0]);
        lemma_cursors_size_push(cs.drop_first(), c);
        assert(cursors_size(cs.push(c)) == node_size(cs[0].1) + (cursors_size(cs.drop_first())
            + node_size(c.1)));
    }
}

/// A lazy range-query stream over a snapshot of one or more trees.
pub struct QueryStream {
    /// The query box, fixed at creation.
    pub bbox: Bbox,
    /// Buffered hits not yet handed out.
    pub queue: Vec<Item>,
    /// Pending subtrees, each with the axis its level partitions.
    pub cursors: Vec<(usize, Node)>,
    /// External trees not yet resolved by the caller.
    pub refs: Vec<TreeRef>,
    /// Locations deleted from the snapshot; their rows are skipped.
    pub tombstones: Vec<Location>,
    /// All hits handed out so far.
    pub emitted: Ghost<Multiset<Item>>,
    /// All hits this snapshot will yield once drained.
    pub total: Ghost<Multiset<Item>>,
}

impl QueryStream {
    /// Results still to come: the buffered hits and the pending cursors.
    pub open spec fn pending(self) -> Multiset<Item> {
        self.queue@.to_multiset().add(cursors_ms(self.cursors@, self.bbox, self.tombstones@))
    }

    /// Stream invariant: the accounting adds up, every pending subtree
    /// is well shaped with a valid axis, and buffered hits match.
    pub open spec fn wf(self) -> bool {
        &&& self.emitted@.add(self.pending()) == self.total@
        &&& (forall|i: int|
            0 <= i < self.cursors@.len() ==> (#[trigger] self.cursors@[i]).0 < 2 && wf_shape(
                self.cursors@[i].1,
            ))
        &&& (forall|i: int|
            0 <= i < self.queue@.len() ==> item_matches(#[trigger] self.queue@[i], self.bbox)
                && !self.tombstones@.contains(self.queue@[i].loc))
    }

    /// An empty stream for the given box and tombstone snapshot.
    pub fn new(bbox: Bbox, tombstones: Vec<Location>) -> (s: QueryStream)
        ensures
            s.wf(),
            s.bbox == bbox,
            s.tombstones@ == tombstones@,
            s.emitted@ == Multiset::<Item>::empty(),
            s.total@ == Multiset::<Item>::empty(),
            s.refs@ == Seq::<TreeRef>::empty(),
    {
        let s = QueryStream {
            bbox,
            queue: Vec::new(),
            cursors: Vec::new(),
            refs: Vec::new(),
            tombstones,
            emitted: Ghost(Multiset::<Item>::empty()),
            total: Ghost(Multiset::<Item>::empty()),
        };
        proof {
            assert(s.queue@ =~= Seq::<Item>::empty());
            assert(s.cursors@ =~= Seq::<(usize, Node)>::empty());
            broadcast use vstd::seq_lib::group_to_multiset_ensures;

            vstd::seq_lib::to_multiset_len(s.queue@);
            assert(s.queue@.to_multiset() =~= Multiset::<Item>::empty());
            assert(cursors_ms(s.cursors@, bbox, s.tombstones@) == Multiset::<Item>::empty());
            assert(s.emitted@.add(s.pending()) =~= s.total@);
        }
        s
    }

    /// Add one tree to the snapshot: its root joins the pending cursors
    /// and its results join the stream's total.
    pub fn push_tree(&mut self, t: &Tree)
        requires
            old(self).wf(),
            wf_shape(t.root),
        ensures
            final(self).wf(),
            final(self).bbox == old(self).bbox,
            final(self).tombstones@ == old(self).tombstones@,
            final(self).refs@ == old(self).refs@,
            final(self).emitted@ == old(self).emitted@,
            final(self).total@ == old(self).total@.add(
                query_node(t.root, 0, old(self).bbox, old(self).tombstones@),
            ),
    {
        let root = crate::tree::clone_node(&t.root);
        proof {
            crate::tree::lemma_node_eq_props(root, t.root);
            lemma_node_eq_query(root, t.root, 0, self.bbox, self.tombstones@);
            lemma_cursors_ms_push(
                self.cursors@,
                (0usize, root),
                self.bbox,
                self.tombstones@,
            );
        }
        let ghost q = query_node(t.root, 0, self.bbox, self.tombstones@);
        let ghost oldcs = self.cursors@;
        self.cursors.push((0, root));
        proof {
            self.total@ = self.total@.add(q);
            assert(self.cursors@ =~= oldcs.push((0usize, root)));
            assert(cursors_ms(self.cursors@, self.bbox, self.tombstones@) == cursors_ms(
                oldcs,
                self.bbox,
                self.tombstones@,
            ).add(q));
            assert(self.emitted@.add(self.pending()) =~= self.total@);
            assert forall|i: int| 0 <= i < self.cursors@.len() implies (#[trigger] self.cursors@[i]).0
                < 2 && wf_shape(self.cursors@[i].1) by {
                if i < oldcs.len() {
                    assert(self.cursors@[i] == oldcs[i]);
                } else {
                    assert(self.cursors@[i] == (0usize, root));
                }
            }
        }
    }

    /// Pull the next answer.  A `Hit` is one matching, live row of the
    /// snapshot; `NeedTree` asks the caller to resolve an external tree
    /// (via `push_tree`) or to carry on without it; `Done` means every
    /// result of the snapshot has been emitted.  References surface in
    /// traversal order; their identities are not part of the contract.
    #[verifier::loop_isolation(false)]
    #[verifier::rlimit(100)]
    pub fn next(&mut self) -> (r: QueryPoll)
        requires
            old(self).wf(),
        ensures
            final(self).wf(),
            final(self).bbox == old(self).bbox,
            final(self).tombstones@ == old(self).tombstones@,
            final(self).total@ == old(self).total@,
            match r {
                QueryPoll::Hit(it) => {
                    &&& final(self).emitted@ == old(self).emitted@.insert(it)
                    &&& item_matches(it, old(self).bbox)
                    &&& !old(self).tombstones@.contains(it.loc)
                    &&& old(self).total@.count(it) > old(self).emitted@.count(it)
                    &&& old(self).refs@.is_prefix_of(final(self).refs@)
                },
                QueryPoll::NeedTree(tr) => {
                    &&& final(self).emitted@ == old(self).emitted@
                    &&& final(self).emitted@ == final(self).total@
                    &&& old(self).refs@.is_prefix_of(final(self).refs@.push(tr))
                },
                QueryPoll::Done => {
                    &&& final(self).emitted@ == old(self).emitted@
                    &&& final(self).emitted@ == final(self).total@
                    &&& final(self).refs@.len() == 0
                    &&& old(self).refs@.len() == 0
                },
            },
    {
        loop
            invariant
                self.wf(),
                self.bbox == old(self).bbox,
                self.tombstones@ == old(self).tombstones@,
                self.total@ == old(self).total@,
                self.emitted@ == old(self).emitted@,
                old(self).refs@.is_prefix_of(self.refs@),
            decreases
                    cursors_size(self.cursors@) + self.queue@.len() + self.refs@.len(),
                    self.cursors@.len(),
        {
            let ghost bbox = self.bbox;
            let ghost ts = self.tombstones@;
            if self.queue.len() > 0 {
                let ghost qpre = self.queue@;
                let ghost pend0 = self.pending();
                let it = self.queue.pop().unwrap();
                proof {
                    broadcast use vstd::seq_lib::group_to_multiset_ensures;

                    lemma_last_split(qpre);
                    assert(qpre.drop_last().push(it).to_multiset() =~= qpre.drop_last().to_multiset().insert(it));
                    assert(qpre.to_multiset() == self.queue@.to_multiset().insert(it));
                    assert(qpre[qpre.len() - 1] == it);
                    self.emitted@ = self.emitted@.insert(it);
                    assert(self.emitted@.add(self.pending()) =~= self.total@);
                    assert(old(self).total@.count(it) > old(self).emitted@.count(it)) by {
                        assert(old(self).total@.count(it) == old(self).emitted@.count(it)
                            + pend0.count(it));
                        assert(pend0.count(it) >= qpre.to_multiset().count(it));
                        assert(qpre.contains(it));
                        assert(qpre.to_multiset().count(it) > 0);
                    }
                }
                return QueryPoll::Hit(it);
            }
            if self.cursors.len() == 0 {
                proof {
                    broadcast use vstd::seq_lib::group_to_multiset_ensures;

                    assert(self.queue@ =~= Seq::<Item>::empty());
                    vstd::seq_lib::to_multiset_len(self.queue@);
                    assert(self.cursors@ =~= Seq::<(usize, Node)>::empty());
                    assert(self.pending() =~= Multiset::<Item>::empty());
                    assert(self.emitted@ =~= self.total@);
                }
                if self.refs.len() > 0 {
                    let ghost rpre = self.refs@;
                    let tr = self.refs.pop().unwrap();
                    proof {
                        assert(self.refs@.push(tr) =~= rpre);
                        assert(old(self).refs@.is_prefix_of(self.refs@.push(tr)));
                    }
                    return QueryPoll::NeedTree(tr);
                }
                proof {
                    assert(self.refs@ =~= Seq::<TreeRef>::empty());
                    assert(old(self).refs@.len() == 0);
                }
                return QueryPoll::Done;
            }
            let ghost cspre = self.cursors@;
            let cur = self.cursors.pop().unwrap();
            let (axu, node) = cur;
            let ghost q_node = query_node(node, axu as int, bbox, ts);
            proof {
                lemma_last_split(cspre);
                lemma_cursors_ms_push(cspre.drop_last(), cspre.last(), bbox, ts);
                assert(cspre.last() == cur);
                assert(cursors_ms(cspre, bbox, ts) == cursors_ms(self.cursors@, bbox, ts).add(
                    q_node,
                ));
                lemma_cursors_size_push(cspre.drop_last(), cspre.last());
                assert(cursors_size(cspre) == cursors_size(self.cursors@) + node_size(node));
                assert(axu < 2 && wf_shape(node)) by {
                    assert(cspre[cspre.len() - 1] == cur);
                }
            }
            match node {
                Node::Data(items) => {
                    let ghost pred = |it: Item| item_matches(it, bbox) && !ts.contains(it.loc);
                    let ghost qpre = self.queue@;
                    let ghost csnow = self.cursors@;
                    let ghost rnow = self.refs@;
                    let mut k: usize = 0;
                    proof {
                        assert(items@.take(0).filter(pred) =~= Seq::<Item>::empty());
                        assert(self.queue@ =~= qpre + items@.take(0).filter(pred));
                    }
                    while k < items.len()
                        invariant
                            k <= items@.len(),
                            self.queue@ == qpre + items@.take(k as int).filter(pred),
                            self.bbox == bbox,
                            self.tombstones@ == ts,
                            self.emitted@ == old(self).emitted@,
                            self.total@ == old(self).total@,
                            self.cursors@ == csnow,
                            self.refs@ == rnow,
                        decreases items@.len() - k,
                    {
                        let it = items[k];
                        let valid = self.bbox.0.0 <= self.bbox.1.0 && self.bbox.0.1
                            <= self.bbox.1.1;
                        let hit_x = intersect_coord(&it.point.0, self.bbox.0.0, self.bbox.1.0);
                        let hit_y = intersect_coord(&it.point.1, self.bbox.0.1, self.bbox.1.1);
                        let gone = tombs_contain(&self.tombstones, it.loc);
                        proof {
                            assert(items@.take(k + 1) =~= items@.take(k as int).push(it));
                            items@.take(k as int).lemma_filter_push(it, pred);
                            assert(valid == bbox_valid(bbox));
                            assert(item_matches(it, bbox) == (valid && hit_x && hit_y));
                            assert(pred(it) == (valid && hit_x && hit_y && !gone));
                        }
                        if valid && hit_x && hit_y && !gone {
                            self.queue.push(it);
                            proof {
                                assert(self.queue@ =~= qpre + items@.take(k + 1).filter(pred));
                            }
                        } else {
                            proof {
                                assert(self.queue@ =~= qpre + items@.take(k + 1).filter(pred));
                            }
                        }
                        k += 1;
                    }
                    proof {
                        broadcast use vstd::seq_lib::group_to_multiset_ensures;
                        broadcast use vstd::seq_lib::group_filter_ensures;

                        assert(items@.take(items@.len() as int) =~= items@);
                        assert(self.queue@ == qpre + items@.filter(pred));
                        crate::perm::lemma_ms_add(qpre, items@.filter(pred));
                        assert(q_node == items@.filter(pred).to_multiset());
                        assert(self.emitted@.add(self.pending()) =~= self.total@);
                        assert forall|i: int| 0 <= i < self.queue@.len() implies item_matches(
                            #[trigger] self.queue@[i],
                            self.bbox,
                        ) && !self.tombstones@.contains(self.queue@[i].loc) by {
                            if i >= qpre.len() {
                                assert(self.queue@[i] == items@.filter(pred)[i - qpre.len()]);
                                assert(pred(items@.filter(pred)[i - qpre.len()]));
                            } else {
                                assert(self.queue@[i] == qpre[i]);
                            }
                        }
                        vstd::seq_lib::to_multiset_len(items@.filter(pred));
                        assert(items@.filter(pred).len() <= items@.len());
                    }
                },
                Node::Ref(tr) => {
                    let ghost rpre = self.refs@;
                    self.refs.push(tr);
                    proof {
                        assert(q_node == Multiset::<Item>::empty());
                        assert(self.emitted@.add(self.pending()) =~= self.total@);
                        assert(rpre.is_prefix_of(self.refs@)) by {
                            assert(self.refs@.subrange(0, rpre.len() as int) =~= rpre);
                        }
                        assert(old(self).refs@.is_prefix_of(self.refs@)) by {
                            assert(self.refs@.subrange(0, old(self).refs@.len() as int)
                                =~= rpre.subrange(0, old(self).refs@.len() as int));
                        }
                    }
                },
                Node::Branch(b) => {
                    proof {
                        assert(cspre[cspre.len() - 1] == cur);
                    }
                    self.expand_branch(axu, b);
                    proof {
                        assert(cursors_ms(self.cursors@, bbox, ts) =~= cursors_ms(
                            cspre.drop_last(),
                            bbox,
                            ts,
                        ).add(q_node));
                        assert(self.emitted@.add(self.pending()) =~= self.total@);
                        assert(cursors_size(self.cursors@) < cursors_size(cspre));
                    }
                },
            }
        }
    }

    /// Replace one popped branch cursor by the child cursors its pivots
    /// admit for this stream's box, preserving the result accounting.
    #[verifier::loop_isolation(false)]
    #[verifier::rlimit(100)]
    fn expand_branch(&mut self, axu: usize, b: Branch)
        requires
            axu < 2,
            wf_shape(Node::Branch(b)),
            forall|i: int|
                0 <= i < old(self).cursors@.len() ==> (#[trigger] old(self).cursors@[i]).0 < 2
                    && wf_shape(old(self).cursors@[i].1),
        ensures
            final(self).bbox == old(self).bbox,
            final(self).tombstones@ == old(self).tombstones@,
            final(self).queue@ == old(self).queue@,
            final(self).refs@ == old(self).refs@,
            final(self).emitted@ == old(self).emitted@,
            final(self).total@ == old(self).total@,
            cursors_ms(final(self).cursors@, old(self).bbox, old(self).tombstones@) == cursors_ms(
                old(self).cursors@,
                old(self).bbox,
                old(self).tombstones@,
            ).add(
                query_node(
                    Node::Branch(b),
                    axu as int,
                    old(self).bbox,
                    old(self).tombstones@,
                ),
            ),
            forall|i: int|
                0 <= i < final(self).cursors@.len() ==> (#[trigger] final(self).cursors@[i]).0 < 2
                    && wf_shape(final(self).cursors@[i].1),
            cursors_size(final(self).cursors@) < cursors_size(old(self).cursors@) + node_size(
                Node::Branch(b),
            ),
    {
        let ghost bbox = self.bbox;
        let ghost ts = self.tombstones@;
        let ghost cspre0 = self.cursors@;
        let ghost node = Node::Branch(b);
        let ghost q_node = query_node(Node::Branch(b), axu as int, bbox, ts);
                    let Branch { pivots, intersections, nodes } = b;
                    let m = pivots.len();
                    let nax: usize = 1 - axu;
                    let (blo, bhi) = if axu == 0 {
                        (self.bbox.0.0, self.bbox.1.0)
                    } else {
                        (self.bbox.0.1, self.bbox.1.1)
                    };
                    let ghost axi = axu as int;
                    let ghost ps_g = pivots@;
                    let ghost inter_g = intersections@;
                    let ghost nodes_g = nodes@;
                    let ghost mi = m as int;
                    proof {
                        assert(blo as int == bb_lo(bbox, axi) && bhi as int == bb_hi(bbox, axi));
                        assert(m >= 1 && inter_g.len() == mi && nodes_g.len() == mi + 1);
                        assert(forall|i: int| 0 <= i < mi ==> wf_shape(#[trigger] inter_g[i]));
                        assert(forall|i: int| 0 <= i <= mi ==> wf_shape(#[trigger] nodes_g[i]));
                    }
                    // the four groups of the branch's contribution
                    let ghost part_b = query_buckets(inter_g, ps_g, axi, bbox, ts);
                    let ghost part_f = if bb_lo(bbox, axi) <= ps_g[0] as int {
                        query_node(nodes_g[0], 1 - axi, bbox, ts)
                    } else {
                        Multiset::<Item>::empty()
                    };
                    let ghost part_s = query_slabs(nodes_g.subrange(1, mi), ps_g, axi, bbox, ts);
                    let ghost part_l = if bb_hi(bbox, axi) >= ps_g[mi - 1] as int {
                        query_node(nodes_g[mi], 1 - axi, bbox, ts)
                    } else {
                        Multiset::<Item>::empty()
                    };
                    proof {
                        assert(q_node == part_b.add(part_f.add(part_s.add(part_l))));
                    }
                    let ghost cs0 = self.cursors@;
                    let ghost size0 = cursors_size(self.cursors@);

                    // last partition child
                    let mut nvec = nodes;
                    let lastc = nvec.pop().unwrap();
                    if bhi >= pivots[m - 1] {
                        proof {
                            lemma_cursors_ms_push(self.cursors@, (nax, lastc), bbox, ts);
                            lemma_cursors_size_push(self.cursors@, (nax, lastc));
                        }
                        self.cursors.push((nax, lastc));
                    }
                    proof {
                        lemma_last_split(nodes_g);
                        lemma_nodes_size_drop_last(nodes_g);
                        assert(nvec@ =~= nodes_g.drop_last());
                        assert(nodes_g.last() == lastc);
                        assert(cursors_ms(self.cursors@, bbox, ts) =~= cursors_ms(
                            cs0,
                            bbox,
                            ts,
                        ).add(part_l));
                        assert(cursors_size(self.cursors@) + nodes_size(nvec@) <= size0
                            + nodes_size(nodes_g));
                        assert((1 - axi) == nax as int);
                    }
                    let ghost cs1 = self.cursors@;
                    let ghost size1 = cursors_size(self.cursors@);
                    let ghost qarm = self.queue@;
                    let ghost rarm = self.refs@;
                    proof {
                        assert(nvec@ =~= nodes_g.take(mi));
                        assert(nodes_g.subrange(1, mi) =~= nodes_g.subrange(1, mi));
                        assert(part_s.difference_with(part_s) =~= Multiset::<Item>::empty());
                        assert(cursors_ms(self.cursors@, bbox, ts) =~= cursors_ms(
                            cs1,
                            bbox,
                            ts,
                        ).add(part_s.difference_with(part_s)));
                    }

                    // middle partition children, from the last slab down
                    while nvec.len() > 1
                        invariant
                            self.queue@ == qarm,
                            self.refs@ == rarm,
                            self.emitted@ == old(self).emitted@,
                            self.total@ == old(self).total@,
                            self.bbox == old(self).bbox,
                            self.tombstones@ == ts,
                            1 <= nvec@.len() <= mi,
                            nvec@ == nodes_g.take(nvec@.len() as int),
                            cursors_ms(self.cursors@, bbox, ts) == cursors_ms(cs1, bbox, ts).add(
                                part_s.difference_with(
                                    query_slabs(
                                        nodes_g.subrange(1, nvec@.len() as int),
                                        ps_g,
                                        axi,
                                        bbox,
                                        ts,
                                    ),
                                ),
                            ),
                            query_slabs(
                                nodes_g.subrange(1, nvec@.len() as int),
                                ps_g,
                                axi,
                                bbox,
                                ts,
                            ).subset_of(part_s),
                            cursors_size(self.cursors@) + nodes_size(nvec@) <= size0 + nodes_size(
                                nodes_g,
                            ),
                            forall|i: int|
                                0 <= i < self.cursors@.len() ==> (#[trigger] self.cursors@[i]).0
                                    < 2 && wf_shape(self.cursors@[i].1),
                        decreases nvec@.len(),
                    {
                        let kk = nvec.len() - 1;
                        let child = nvec.pop().unwrap();
                        let ghost nv_pre = nodes_g.take(kk + 1);
                        proof {
                            assert(nv_pre.last() == nodes_g[kk as int]);
                            assert(child == nodes_g[kk as int]);
                            assert(nvec@ =~= nodes_g.take(kk as int));
                        }
                        if intersect_iv(pivots[kk - 1], pivots[kk], blo, bhi) {
                            proof {
                                lemma_cursors_ms_push(self.cursors@, (nax, child), bbox, ts);
                                lemma_cursors_size_push(self.cursors@, (nax, child));
                                assert(wf_shape(child));
                            }
                            self.cursors.push((nax, child));
                        }
                        proof {
                            let sub_pre = nodes_g.subrange(1, kk + 1);
                            let sub_post = nodes_g.subrange(1, kk as int);
                            assert(sub_pre.len() == kk);
                            assert(sub_pre.drop_last() =~= sub_post);
                            assert(sub_pre.last() == nodes_g[kk as int]);
                            lemma_slabs_drop_last(sub_pre, ps_g, axi, bbox, ts);
                            assert(sub_pre[sub_pre.len() - 1] == nodes_g[kk as int]);
                            lemma_nodes_size_drop_last(nodes_g.take(kk + 1));
                            assert(nodes_g.take(kk + 1).drop_last() =~= nodes_g.take(kk as int));
                            assert(nodes_g.take(kk + 1).last() == nodes_g[kk as int]);
                            assert(cursors_ms(self.cursors@, bbox, ts) =~= cursors_ms(
                                cs1,
                                bbox,
                                ts,
                            ).add(
                                part_s.difference_with(
                                    query_slabs(
                                        nodes_g.subrange(1, kk as int),
                                        ps_g,
                                        axi,
                                        bbox,
                                        ts,
                                    ),
                                ),
                            ));
                        }
                    }

                    // first partition child
                    let firstc = nvec.pop().unwrap();
                    proof {
                        assert(nvec@.len() == 0);
                        assert(firstc == nodes_g[0]);
                        assert(nodes_g.subrange(1, 1) =~= Seq::<Node>::empty());
                        assert(query_slabs(nodes_g.subrange(1, 1), ps_g, axi, bbox, ts)
                            == Multiset::<Item>::empty());
                        assert(cursors_ms(self.cursors@, bbox, ts) =~= cursors_ms(
                            cs1,
                            bbox,
                            ts,
                        ).add(part_s));
                    }
                    let ghost cs2 = self.cursors@;
                    let ghost size2 = cursors_size(self.cursors@);
                    if blo <= pivots[0] {
                        proof {
                            lemma_cursors_ms_push(self.cursors@, (nax, firstc), bbox, ts);
                            lemma_cursors_size_push(self.cursors@, (nax, firstc));
                        }
                        self.cursors.push((nax, firstc));
                    }
                    proof {
                        assert(cursors_ms(self.cursors@, bbox, ts) =~= cursors_ms(
                            cs2,
                            bbox,
                            ts,
                        ).add(part_f));
                        assert(cursors_size(self.cursors@) <= size0 + nodes_size(nodes_g));
                    }
                    let ghost cs3 = self.cursors@;
                    let ghost size3 = cursors_size(self.cursors@);

                    // intersection buckets, from the last down
                    let mut ivec = intersections;
                    proof {
                        assert(ivec@ =~= inter_g.take(mi));
                        assert(part_b.difference_with(part_b) =~= Multiset::<Item>::empty());
                        assert(cursors_ms(self.cursors@, bbox, ts) =~= cursors_ms(
                            cs3,
                            bbox,
                            ts,
                        ).add(part_b.difference_with(part_b)));
                    }
                    while ivec.len() > 0
                        invariant
                            self.queue@ == qarm,
                            self.refs@ == rarm,
                            self.emitted@ == old(self).emitted@,
                            self.total@ == old(self).total@,
                            self.bbox == old(self).bbox,
                            self.tombstones@ == ts,
                            ivec@.len() <= mi,
                            ivec@ == inter_g.take(ivec@.len() as int),
                            cursors_ms(self.cursors@, bbox, ts) == cursors_ms(cs3, bbox, ts).add(
                                part_b.difference_with(
                                    query_buckets(
                                        inter_g.take(ivec@.len() as int),
                                        ps_g,
                                        axi,
                                        bbox,
                                        ts,
                                    ),
                                ),
                            ),
                            query_buckets(
                                inter_g.take(ivec@.len() as int),
                                ps_g,
                                axi,
                                bbox,
                                ts,
                            ).subset_of(part_b),
                            cursors_size(self.cursors@) + nodes_size(ivec@) <= size0 + nodes_size(
                                nodes_g,
                            ) + nodes_size(inter_g),
                            forall|i: int|
                                0 <= i < self.cursors@.len() ==> (#[trigger] self.cursors@[i]).0
                                    < 2 && wf_shape(self.cursors@[i].1),
                        decreases ivec@.len(),
                    {
                        let kk = ivec.len() - 1;
                        let child = ivec.pop().unwrap();
                        proof {
                            assert(child == inter_g[kk as int]);
                            assert(ivec@ =~= inter_g.take(kk as int));
                        }
                        let p = pivots[kk];
                        if blo <= p && p <= bhi {
                            proof {
                                lemma_cursors_ms_push(self.cursors@, (nax, child), bbox, ts);
                                lemma_cursors_size_push(self.cursors@, (nax, child));
                                assert(wf_shape(child));
                            }
                            self.cursors.push((nax, child));
                        }
                        proof {
                            let sub_pre = inter_g.take(kk + 1);
                            assert(sub_pre.drop_last() =~= inter_g.take(kk as int));
                            assert(sub_pre.last() == inter_g[kk as int]);
                            lemma_buckets_drop_last(sub_pre, ps_g, axi, bbox, ts);
                            lemma_nodes_size_drop_last(inter_g.take(kk + 1));
                            assert(inter_g.take(kk + 1).drop_last() =~= inter_g.take(kk as int));
                            assert(cursors_ms(self.cursors@, bbox, ts) =~= cursors_ms(
                                cs3,
                                bbox,
                                ts,
                            ).add(
                                part_b.difference_with(
                                    query_buckets(
                                        inter_g.take(kk as int),
                                        ps_g,
                                        axi,
                                        bbox,
                                        ts,
                                    ),
                                ),
                            ));
                        }
                    }
                    proof {
                        assert(inter_g.take(0) =~= Seq::<Node>::empty());
                        assert(query_buckets(inter_g.take(0), ps_g, axi, bbox, ts) == Multiset::<
                            Item,
                        >::empty());
                        assert(cursors_ms(self.cursors@, bbox, ts) =~= cursors_ms(
                            cs3,
                            bbox,
                            ts,
                        ).add(part_b));
                        assert(cursors_ms(self.cursors@, bbox, ts) =~= cursors_ms(
                            cs0,
                            bbox,
                            ts,
                        ).add(q_node));
                        assert(cursors_size(self.cursors@) <= size0 + nodes_size(nodes_g)
                            + nodes_size(inter_g));
                        assert(node_size(node) == 1 + nodes_size(inter_g) + nodes_size(nodes_g));
                    }
        proof {
            assert(cursors_size(self.cursors@) < cursors_size(cspre0) + node_size(node));
        }
    }

}

} // verus!
