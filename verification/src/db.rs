//! The forest manager: a vector of trees of geometrically growing
//! rank, merged in a log-structured cascade.
//!
//! Each batch folds the inserted rows together with the occupied prefix
//! of the forest into one freshly built tree, installed one rank up.
//! Deletes become tombstones; a tombstoned row is elided when its tree
//! is next merged and is skipped by every query until then.

use vstd::prelude::*;
use vstd::multiset::Multiset;
use crate::coord::Coord;
use crate::tree::{Tree, Item, TreeRef, node_items, wf_shape, wf_place, item_wf};
use crate::query::{QueryStream, Bbox, query_node, item_matches, item_within, lemma_query_sound,
    lemma_query_complete};
use crate::Location;

verus! {

broadcast use vstd::multiset::group_multiset_axioms;

/// Configuration chosen at setup time.
pub struct SetupFields {
    /// Branching factor `B`: one more than the most pivots a branch holds.
    pub branch_factor: usize,
}

/// One row of a batch: an insertion of a point (or box) with its
/// payload, or a tombstone delete of a previously returned location.
pub enum Row {
    Insert((Coord, Coord), u32),
    Delete(Location),
}

/// The database: the forest slots, the tombstones of deleted rows, the
/// external references carried over from merged trees, and the sequence
/// number stamped on the next batch's insertions.
pub struct DB {
    pub fields: SetupFields,
    pub trees: Vec<Option<Tree>>,
    pub tombstones: Vec<Location>,
    pub refs: Vec<TreeRef>,
    pub batch_seq: u64,
}

/// Items stored in a sequence of forest slots, in slot order.
pub open spec fn slots_items(ts: Seq<Option<Tree>>) -> Seq<Item>
    decreases ts.len(),
{
    if ts.len() == 0 {
        Seq::<Item>::empty()
    } else {
        slots_items(ts.drop_last()) + (match ts.last() {
            Some(t) => node_items(t.root),
            None => Seq::<Item>::empty(),
        })
    }
}

/// All items stored in the database's forest.
pub open spec fn db_items(db: DB) -> Seq<Item> {
    slots_items(db.trees@)
}

/// The live (non-tombstoned) rows of the database, as a multiset.
pub open spec fn live_ms(db: DB) -> Multiset<Item> {
    db_items(db).filter(|it: Item| !db.tombstones@.contains(it.loc)).to_multiset()
}

/// Database invariant: a valid branching factor; every stored tree well
/// shaped and well placed with an exact count; every stored item well
/// formed, stamped below the next batch sequence, stored once, and at
/// a location no other item has.
pub open spec fn wf_db(db: DB) -> bool {
    &&& db.fields.branch_factor >= 2
    &&& (forall|k: int|
        0 <= k < db.trees@.len() && db.trees@[k] is Some ==> {
            let t = (#[trigger] db.trees@[k])->0;
            wf_shape(t.root) && wf_place(t.root, 0) && t.count == node_items(t.root).len()
        })
    &&& (forall|e: Item|
        #[trigger] db_items(db).to_multiset().count(e) > 0 ==> item_wf(e) && (e.loc.0
            < db.batch_seq))
    &&& (forall|e: Item| #[trigger] db_items(db).to_multiset().count(e) <= 1)
    &&& (forall|e1: Item, e2: Item|
        db_items(db).to_multiset().count(e1) > 0 && db_items(db).to_multiset().count(e2) > 0 && e1
            != e2 ==> (#[trigger] e1.loc) != (#[trigger] e2.loc))
}

/// The items a batch inserts, stamped with fresh locations
/// `(seq, insertion index)`.
pub open spec fn inserts_of(rows: Seq<Row>, seq: u64) -> Seq<Item>
    decreases rows.len(),
{
    if rows.len() == 0 {
        Seq::<Item>::empty()
    } else {
        let rest = inserts_of(rows.drop_last(), seq);
        match rows.last() {
            Row::Insert(p, v) => rest.push(
                Item { point: p, value: v, loc: (seq, rest.len() as u32) },
            ),
            Row::Delete(_) => rest,
        }
    }
}

/// The locations a batch deletes.
pub open spec fn dels_of(rows: Seq<Row>) -> Seq<Location>
    decreases rows.len(),
{
    if rows.len() == 0 {
        Seq::<Location>::empty()
    } else {
        let rest = dels_of(rows.drop_last());
        match rows.last() {
            Row::Insert(_, _) => rest,
            Row::Delete(l) => rest.push(l),
        }
    }
}

/// Length of the occupied prefix: the slots a batch merges.
pub open spec fn occupied_prefix(ts: Seq<Option<Tree>>) -> int
    decreases ts.len(),
{
    if ts.len() == 0 || ts[0] is None {
        0
    } else {
        1 + occupied_prefix(ts.drop_first())
    }
}

/// A run of occupied slots ending at an empty slot (or the end) is the
/// occupied prefix.
proof fn lemma_occupied_prefix_is(ts: Seq<Option<Tree>>, k: int)
    requires
        0 <= k <= ts.len(),
        forall|j: int| 0 <= j < k ==> (#[trigger] ts[j]) is Some,
        k == ts.len() || ts[k] is None,
    ensures
        occupied_prefix(ts) == k,
    decreases ts.len(),
{
    if k == 0 {
    } else {
        assert(ts[0] is Some);
        assert forall|j: int| 0 <= j < k - 1 implies (#[trigger] ts.drop_first()[j]) is Some by {
            assert(ts.drop_first()[j] == ts[j + 1]);
        }
        if k < ts.len() {
            assert(ts.drop_first()[k - 1] == ts[k]);
        }
        lemma_occupied_prefix_is(ts.drop_first(), k - 1);
    }
}

/// Results a query yields from a sequence of forest slots.
pub open spec fn slots_query(ts: Seq<Option<Tree>>, bbox: Bbox, tombs: Seq<Location>) -> Multiset<
    Item,
>
    decreases ts.len(),
{
    if ts.len() == 0 {
        Multiset::<Item>::empty()
    } else {
        slots_query(ts.drop_last(), bbox, tombs).add(
            match ts.last() {
                Some(t) => query_node(t.root, 0, bbox, tombs),
                None => Multiset::<Item>::empty(),
            },
        )
    }
}

/// The full result multiset of a query on a snapshot of the database.
pub open spec fn db_query_ms(db: DB, bbox: Bbox) -> Multiset<Item> {
    slots_query(db.trees@, bbox, db.tombstones@)
}

impl DB {
    /// Open an empty database with the given configuration.
    pub fn open_from_setup(fields: SetupFields) -> (db: DB)
        requires
            fields.branch_factor >= 2,
        ensures
            wf_db(db),
            db.fields == fields,
            db.trees@.len() == 0,
            db.tombstones@.len() == 0,
            db.refs@.len() == 0,
            db.batch_seq == 0,
            db_items(db).len() == 0,
    {
        let db = DB {
            fields,
            trees: Vec::new(),
            tombstones: Vec::new(),
            refs: Vec::new(),
            batch_seq: 0,
        };
        proof {
            broadcast use vstd::seq_lib::group_to_multiset_ensures;

            assert(db.trees@ =~= Seq::<Option<Tree>>::empty());
            assert(db_items(db) =~= Seq::<Item>::empty());
            assert forall|e: Item| #[trigger] db_items(db).to_multiset().count(e) <= 0 by {
                if db_items(db).to_multiset().count(e) > 0 {
                    assert(db_items(db).contains(e));
                }
            }
        }
        db
    }

    /// Open a lazy range-query stream over a snapshot of the current
    /// forest.  Carried external references are queued on the stream
    /// for the caller to resolve.
    pub fn query(&self, bbox: &Bbox) -> (q: QueryStream)
        requires
            wf_db(*self),
        ensures
            q.wf(),
            q.bbox == *bbox,
            q.tombstones@ == self.tombstones@,
            q.emitted@ == Multiset::<Item>::empty(),
            q.total@ == db_query_ms(*self, *bbox),
            q.refs@ == self.refs@,
    {
        let mut tombs: Vec<Location> = Vec::new();
        let mut k: usize = 0;
        while k < self.tombstones.len()
            invariant
                k <= self.tombstones@.len(),
                tombs@ == self.tombstones@.take(k as int),
            decreases self.tombstones@.len() - k,
        {
            tombs.push(self.tombstones[k]);
            proof {
                assert(self.tombstones@.take(k + 1) =~= self.tombstones@.take(k as int).push(
                    self.tombstones@[k as int],
                ));
            }
            k += 1;
        }
        proof {
            assert(self.tombstones@.take(self.tombstones@.len() as int) =~= self.tombstones@);
        }
        let mut q = QueryStream::new(*bbox, tombs);
        let mut k: usize = 0;
        proof {
            assert(slots_query(self.trees@.take(0), *bbox, self.tombstones@) == Multiset::<
                Item,
            >::empty()) by {
                assert(self.trees@.take(0) =~= Seq::<Option<Tree>>::empty());
            }
        }
        while k < self.trees.len()
            invariant
                k <= self.trees@.len(),
                wf_db(*self),
                q.wf(),
                q.bbox == *bbox,
                q.tombstones@ == self.tombstones@,
                q.emitted@ == Multiset::<Item>::empty(),
                q.refs@ == Seq::<TreeRef>::empty(),
                q.total@ == slots_query(self.trees@.take(k as int), *bbox, self.tombstones@),
            decreases self.trees@.len() - k,
        {
            match &self.trees[k] {
                Some(t) => {
                    proof {
                        assert(wf_shape(t.root)) by {
                            assert(self.trees@[k as int] is Some);
                        }
                    }
                    q.push_tree(t);
                },
                None => {},
            }
            proof {
                assert(self.trees@.take(k + 1).drop_last() =~= self.trees@.take(k as int));
                assert(self.trees@.take(k + 1).last() == self.trees@[k as int]);
                assert(q.total@ =~= slots_query(
                    self.trees@.take(k + 1),
                    *bbox,
                    self.tombstones@,
                ));
            }
            k += 1;
        }
        proof {
            assert(self.trees@.take(self.trees@.len() as int) =~= self.trees@);
        }
        let mut k: usize = 0;
        while k < self.refs.len()
            invariant
                k <= self.refs@.len(),
                q.wf(),
                q.bbox == *bbox,
                q.tombstones@ == self.tombstones@,
                q.emitted@ == Multiset::<Item>::empty(),
                q.total@ == db_query_ms(*self, *bbox),
                q.refs@ == self.refs@.take(k as int),
            decreases self.refs@.len() - k,
        {
            let r = self.refs[k];
            let ghost qpre = q;
            q.refs.push(r);
            proof {
                assert(self.refs@.take(k + 1) =~= self.refs@.take(k as int).push(r));
                assert(q.pending() == qpre.pending());
                assert(q.wf());
            }
            k += 1;
        }
        proof {
            assert(self.refs@.take(self.refs@.len() as int) =~= self.refs@);
        }
        q
    }
}

/// Slot item enumeration distributes over concatenation.
proof fn lemma_slots_items_add(a: Seq<Option<Tree>>, b: Seq<Option<Tree>>)
    ensures
        slots_items(a + b) == slots_items(a) + slots_items(b),
    decreases b.len(),
{
    if b.len() == 0 {
        assert(a + b =~= a);
        assert(slots_items(b) =~= Seq::<Item>::empty());
        assert(slots_items(a) + slots_items(b) =~= slots_items(a));
    } else {
        assert((a + b).drop_last() =~= a + b.drop_last());
        assert((a + b).last() == b.last());
        lemma_slots_items_add(a, b.drop_last());
        assert(slots_items(a + b) =~= slots_items(a) + slots_items(b));
    }
}

/// A run of empty slots stores nothing.
proof fn lemma_slots_all_none(ts: Seq<Option<Tree>>)
    requires
        forall|j: int| 0 <= j < ts.len() ==> (#[trigger] ts[j]) is None,
    ensures
        slots_items(ts) == Seq::<Item>::empty(),
    decreases ts.len(),
{
    if ts.len() > 0 {
        lemma_slots_all_none(ts.drop_last());
        assert(slots_items(ts) =~= Seq::<Item>::empty());
    }
}

/// The stamped insertions of a batch: locations are fresh, increasing,
/// and the items are well formed when the batch's coordinates are.
proof fn lemma_inserts_of_props(rows: Seq<Row>, seq: u64)
    requires
        forall|i: int|
            0 <= i < rows.len() ==> ((#[trigger] rows[i]) matches Row::Insert(p, v)
                ==> crate::coord::coord_wf(p.0) && crate::coord::coord_wf(p.1)),
    ensures
        inserts_of(rows, seq).len() <= rows.len(),
        forall|i: int|
            0 <= i < inserts_of(rows, seq).len() ==> (#[trigger] inserts_of(rows, seq)[i]).loc == (
            seq, i as u32) && item_wf(inserts_of(rows, seq)[i]),
    decreases rows.len(),
{
    if rows.len() > 0 {
        lemma_inserts_of_props(rows.drop_last(), seq);
        assert(forall|i: int|
            0 <= i < rows.drop_last().len() ==> rows.drop_last()[i] == #[trigger] rows[i]);
        assert(rows[rows.len() - 1] == rows.last());
    }
}

impl DB {
    /// Apply one batch: stamp the inserted rows with fresh locations,
    /// record the deletes as tombstones, and fold the inserts together
    /// with the live rows of the occupied forest prefix into one new
    /// tree installed one rank up.  The live rows afterwards are
    /// exactly the old and new rows that no tombstone hits.  On the
    /// in-memory forest a batch cannot fail; the `Result` keeps the
    /// surface uniform for callers that persist the new tree.
    #[verifier::loop_isolation(false)]
    #[verifier::rlimit(100)]
    pub fn batch(&mut self, rows: &Vec<Row>) -> (r: Result<(), crate::Error>)
        requires
            wf_db(*old(self)),
            rows@.len() <= u32::MAX,
            old(self).batch_seq < u64::MAX,
            forall|i: int|
                0 <= i < rows@.len() ==> ((#[trigger] rows@[i]) matches Row::Insert(p, v)
                    ==> crate::coord::coord_wf(p.0) && crate::coord::coord_wf(p.1)),
        ensures
            r is Ok,
            wf_db(*final(self)),
            final(self).fields == old(self).fields,
            final(self).batch_seq == old(self).batch_seq + 1,
            final(self).tombstones@ == old(self).tombstones@ + dels_of(rows@),
            live_ms(*final(self)) == (db_items(*old(self)) + inserts_of(
                rows@,
                old(self).batch_seq,
            )).filter(
                |it: Item| !(old(self).tombstones@ + dels_of(rows@)).contains(it.loc),
            ).to_multiset(),
            ({
                let k = occupied_prefix(old(self).trees@);
                let newv = final(self).trees@;
                let union_rows = inserts_of(rows@, old(self).batch_seq) + slots_items(
                    old(self).trees@.take(k),
                ).filter(|it: Item| !(old(self).tombstones@ + dels_of(rows@)).contains(it.loc));
                let grown = union_rows.len() > 0 && k >= old(self).trees@.len();
                &&& (forall|j: int| 0 <= j < k ==> (#[trigger] newv[j]) is None)
                &&& (forall|j: int|
                    k < j < old(self).trees@.len() ==> newv[j] == #[trigger] old(self).trees@[j])
                &&& newv.len() as int == (if grown {
                    k + 1
                } else {
                    old(self).trees@.len() as int
                })
                &&& (union_rows.len() > 0 ==> k < newv.len() && (newv[k] is Some) && node_items(
                    (newv[k])->0.root,
                ).to_multiset() == union_rows.to_multiset() && (union_rows.len()
                    < old(self).fields.branch_factor ==> ((newv[k])->0).root is Data))
                &&& (union_rows.len() == 0 && k < old(self).trees@.len() ==> newv[k]
                    == old(self).trees@[k])
            }),
    {
        broadcast use vstd::seq_lib::group_to_multiset_ensures;

        let ghost oldv = self.trees@;
        let seq = self.batch_seq;
        self.batch_seq = seq + 1;
        proof {
            lemma_inserts_of_props(rows@, seq);
        }

        // stamp inserts, record tombstones
        let mut ins: Vec<Item> = Vec::new();
        let mut k: usize = 0;
        proof {
            assert(ins@ =~= inserts_of(rows@.take(0), seq));
            assert(self.tombstones@ =~= old(self).tombstones@ + dels_of(rows@.take(0)));
        }
        while k < rows.len()
            invariant
                k <= rows@.len(),
                ins@ == inserts_of(rows@.take(k as int), seq),
                ins@.len() <= k,
                self.tombstones@ == old(self).tombstones@ + dels_of(rows@.take(k as int)),
                self.trees@ == oldv,
                self.refs@ == old(self).refs@,
                self.fields == old(self).fields,
                self.batch_seq == seq + 1,
            decreases rows@.len() - k,
        {
            proof {
                assert(rows@.take(k + 1).drop_last() =~= rows@.take(k as int));
                assert(rows@.take(k + 1).last() == rows@[k as int]);
            }
            match &rows[k] {
                Row::Insert(p, v) => {
                    let it = Item { point: *p, value: *v, loc: (seq, ins.len() as u32) };
                    ins.push(it);
                },
                Row::Delete(l) => {
                    self.tombstones.push(*l);
                    proof {
                        assert(self.tombstones@ =~= old(self).tombstones@ + dels_of(
                            rows@.take(k + 1),
                        ));
                    }
                },
            }
            k += 1;
        }
        proof {
            assert(rows@.take(rows@.len() as int) =~= rows@);
        }
        let ghost gins = inserts_of(rows@, seq);
        let ghost tombs_new = self.tombstones@;
        let ghost pred = |it: Item| !tombs_new.contains(it.loc);

        // find the occupied prefix
        let n = self.trees.len();
        let mut kp: usize = 0;
        let mut stop = false;
        while kp < n && !stop
            invariant
                kp <= n,
                forall|j: int| 0 <= j < kp ==> (#[trigger] oldv[j]) is Some,
                stop ==> kp < n && oldv[kp as int] is None,
            decreases n - kp + (if stop {
                0int
            } else {
                1int
            }),
        {
            match &self.trees[kp] {
                Some(_) => {
                    kp += 1;
                },
                None => {
                    stop = true;
                },
            }
        }
        proof {
            assert(kp == n || oldv[kp as int] is None);
        }

        // collect the live rows of the prefix
        let mut rows_all: Vec<Item> = ins;
        let mut j: usize = 0;
        proof {
            assert(slots_items(oldv.take(0)) =~= Seq::<Item>::empty());
            assert(slots_items(oldv.take(0)).filter(pred) =~= Seq::<Item>::empty());
            assert(rows_all@ =~= gins + slots_items(oldv.take(0)).filter(pred));
        }
        while j < kp
            invariant
                j <= kp,
                rows_all@ == gins + slots_items(oldv.take(j as int)).filter(pred),
                self.trees@ == oldv,
                self.tombstones@ == tombs_new,
                self.batch_seq == seq + 1,
                self.fields == old(self).fields,
            decreases kp - j,
        {
            match &self.trees[j] {
                Some(t) => {
                    let (items, xrefs) = t.list();
                    let mut i: usize = 0;
                    let ghost base = rows_all@;
                    proof {
                        assert(items@.take(0).filter(pred) =~= Seq::<Item>::empty());
                        assert(rows_all@ =~= base + items@.take(0).filter(pred));
                    }
                    while i < items.len()
                        invariant
                            i <= items@.len(),
                            rows_all@ == base + items@.take(i as int).filter(pred),
                            self.tombstones@ == tombs_new,
                        decreases items@.len() - i,
                    {
                        let it = items[i];
                        proof {
                            assert(items@.take(i + 1) =~= items@.take(i as int).push(it));
                            items@.take(i as int).lemma_filter_push(it, pred);
                        }
                        if !crate::query::tombs_contain(&self.tombstones, it.loc) {
                            rows_all.push(it);
                        }
                        proof {
                            assert(rows_all@ =~= base + items@.take(i + 1).filter(pred));
                        }
                        i += 1;
                    }
                    let mut i: usize = 0;
                    while i < xrefs.len()
                        invariant
                            i <= xrefs@.len(),
                            self.trees@ == oldv,
                            self.tombstones@ == tombs_new,
                            self.batch_seq == seq + 1,
                            self.fields == old(self).fields,
                        decreases xrefs@.len() - i,
                    {
                        self.refs.push(xrefs[i]);
                        i += 1;
                    }
                    proof {
                        assert(items@.take(items@.len() as int) =~= items@);
                        assert(oldv.take(j + 1).drop_last() =~= oldv.take(j as int));
                        assert(oldv.take(j + 1).last() == oldv[j as int]);
                        Seq::<Item>::filter_distributes_over_add(
                            slots_items(oldv.take(j as int)),
                            node_items(t.root),
                            pred,
                        );
                        assert(rows_all@ =~= gins + slots_items(oldv.take(j + 1)).filter(pred));
                    }
                },
                None => {
                    proof {
                        assert(oldv[j as int] is Some);
                        assert(false);
                    }
                },
            }
            j += 1;
        }

        // install the merged tree one rank up, clearing the prefix
        if rows_all.len() == 0 {
            let mut j2: usize = 0;
            while j2 < kp
                invariant
                    j2 <= kp,
                    self.trees@.len() == oldv.len(),
                    forall|t2: int| 0 <= t2 < j2 ==> (#[trigger] self.trees@[t2]) is None,
                    forall|t2: int| j2 <= t2 < oldv.len() ==> self.trees@[t2] == oldv[t2],
                    self.tombstones@ == tombs_new,
                    self.batch_seq == seq + 1,
                    self.fields == old(self).fields,
                decreases kp - j2,
            {
                self.trees[j2] = None;
                j2 += 1;
            }
            proof {
                lemma_batch_final(
                    *self,
                    oldv,
                    gins,
                    tombs_new,
                    kp as int,
                    seq,
                    *old(self),
                    rows@,
                    None,
                );
                lemma_occupied_prefix_is(oldv, kp as int);
                assert(tombs_new == old(self).tombstones@ + dels_of(rows@));
            }
            return Ok(());
        }
        proof {
            broadcast use vstd::seq_lib::group_filter_ensures;

            let pfx = slots_items(oldv.take(kp as int));
            let fl = pfx.filter(pred);
            assert(oldv =~= oldv.take(kp as int) + oldv.skip(kp as int));
            lemma_slots_items_add(oldv.take(kp as int), oldv.skip(kp as int));
            crate::perm::lemma_ms_add(pfx, slots_items(oldv.skip(kp as int)));
            assert forall|t2: int| 0 <= t2 < rows_all@.len() implies item_wf(
                #[trigger] rows_all@[t2],
            ) by {
                if t2 < gins.len() {
                    assert(rows_all@[t2] == gins[t2]);
                } else {
                    let e = fl[t2 - gins.len()];
                    assert(rows_all@[t2] == e);
                    assert(fl.contains(e));
                    pfx.lemma_filter_contains_rev(pred, e);
                    assert(pfx.to_multiset().count(e) > 0);
                    assert(db_items(*old(self)).to_multiset().count(e) > 0) by {
                        assert(db_items(*old(self)).to_multiset().count(e) == pfx.to_multiset().count(e)
                            + slots_items(oldv.skip(kp as int)).to_multiset().count(e));
                    }
                }
            }
        }
        let tree = Tree::build(self.fields.branch_factor, &rows_all);
        proof {
            vstd::seq_lib::to_multiset_len(node_items(tree.root));
            vstd::seq_lib::to_multiset_len(rows_all@);
            assert(tree.count == node_items(tree.root).len());
        }
        let ghost gtree = tree;
        let mut j2: usize = 0;
        while j2 < kp
            invariant
                j2 <= kp,
                self.trees@.len() == oldv.len(),
                forall|t2: int| 0 <= t2 < j2 ==> (#[trigger] self.trees@[t2]) is None,
                forall|t2: int| j2 <= t2 < oldv.len() ==> self.trees@[t2] == oldv[t2],
                self.tombstones@ == tombs_new,
                self.batch_seq == seq + 1,
                self.fields == old(self).fields,
            decreases kp - j2,
        {
            self.trees[j2] = None;
            j2 += 1;
        }
        if kp < self.trees.len() {
            self.trees[kp] = Some(tree);
        } else {
            self.trees.push(Some(tree));
        }
        proof {
            lemma_batch_final(
                *self,
                oldv,
                gins,
                tombs_new,
                kp as int,
                seq,
                *old(self),
                rows@,
                Some(gtree),
            );
            lemma_occupied_prefix_is(oldv, kp as int);
            assert(tombs_new == old(self).tombstones@ + dels_of(rows@));
        }
        Ok(())
    }
}

/// Final accounting of a batch: with the prefix cleared and the new
/// tree (if any) installed, the database is well formed and its live
/// rows are the old and freshly inserted rows that no tombstone hits.
#[verifier::rlimit(100)]
proof fn lemma_batch_final(
    db: DB,
    oldv: Seq<Option<Tree>>,
    gins: Seq<Item>,
    tombs_new: Seq<Location>,
    kp: int,
    seq: u64,
    olddb: DB,
    rows: Seq<Row>,
    newtree: Option<Tree>,
)
    requires
        wf_db(olddb),
        olddb.trees@ == oldv,
        olddb.batch_seq == seq,
        gins == inserts_of(rows, seq),
        rows.len() <= u32::MAX,
        seq < u64::MAX,
        forall|i: int|
            0 <= i < rows.len() ==> ((#[trigger] rows[i]) matches Row::Insert(p, v)
                ==> crate::coord::coord_wf(p.0) && crate::coord::coord_wf(p.1)),
        tombs_new == olddb.tombstones@ + dels_of(rows),
        db.tombstones@ == tombs_new,
        db.batch_seq == seq + 1,
        db.fields == olddb.fields,
        0 <= kp <= oldv.len(),
        forall|j: int| 0 <= j < kp ==> (#[trigger] oldv[j]) is Some,
        kp == oldv.len() || oldv[kp] is None,
        // the new forest layout
        match newtree {
            Some(t) => {
                &&& db.trees@.len() as int == (if kp < oldv.len() {
                    oldv.len() as int
                } else {
                    kp + 1
                })
                &&& db.trees@[kp] == Some(t)
                &&& wf_shape(t.root)
                &&& wf_place(t.root, 0)
                &&& t.count == node_items(t.root).len()
                &&& node_items(t.root).to_multiset() == (gins + slots_items(oldv.take(kp)).filter(
                    |it: Item| !tombs_new.contains(it.loc),
                )).to_multiset()
                &&& gins.len() + slots_items(oldv.take(kp)).filter(
                    |it: Item| !tombs_new.contains(it.loc),
                ).len() >= 1
            },
            None => {
                &&& db.trees@.len() == oldv.len()
                &&& (kp < oldv.len() ==> db.trees@[kp] == oldv[kp])
                &&& gins.len() + slots_items(oldv.take(kp)).filter(
                    |it: Item| !tombs_new.contains(it.loc),
                ).len() == 0
            },
        },
        forall|j: int| 0 <= j < kp ==> (#[trigger] db.trees@[j]) is None,
        forall|j: int| kp < j < oldv.len() ==> db.trees@[j] == #[trigger] oldv[j],
    ensures
        wf_db(db),
        live_ms(db) == (slots_items(oldv) + gins).filter(
            |it: Item| !tombs_new.contains(it.loc),
        ).to_multiset(),
{
    broadcast use vstd::seq_lib::group_to_multiset_ensures;

    let pred = |it: Item| !tombs_new.contains(it.loc);
    let newv = db.trees@;
    let pfx = slots_items(oldv.take(kp));
    let pfx_live = pfx.filter(pred);
    let sfx = if kp < oldv.len() {
        slots_items(oldv.skip(kp + 1))
    } else {
        Seq::<Item>::empty()
    };
    // decompose the old forest
    assert(oldv =~= oldv.take(kp) + oldv.skip(kp));
    lemma_slots_items_add(oldv.take(kp), oldv.skip(kp));
    if kp < oldv.len() {
        assert(oldv.skip(kp) =~= seq![oldv[kp]] + oldv.skip(kp + 1));
        lemma_slots_items_add(seq![oldv[kp]], oldv.skip(kp + 1));
        assert(slots_items(seq![oldv[kp]]) =~= Seq::<Item>::empty()) by {
            assert(seq![oldv[kp]].drop_last() =~= Seq::<Option<Tree>>::empty());
            assert(seq![oldv[kp]].last() == oldv[kp]);
            assert(oldv[kp] is None);
            assert(slots_items(seq![oldv[kp]]) == slots_items(Seq::<Option<Tree>>::empty())
                + Seq::<Item>::empty());
        }
        assert(slots_items(oldv.skip(kp)) =~= sfx);
    } else {
        assert(oldv.skip(kp) =~= Seq::<Option<Tree>>::empty());
        assert(slots_items(oldv.skip(kp)) =~= sfx);
    }
    assert(slots_items(oldv) =~= pfx + sfx);
    // decompose the new forest
    let mid: Seq<Item> = match newtree {
        Some(t) => node_items(t.root),
        None => Seq::<Item>::empty(),
    };
    assert(newv =~= newv.take(kp) + newv.skip(kp));
    lemma_slots_items_add(newv.take(kp), newv.skip(kp));
    lemma_slots_all_none(newv.take(kp));
    if kp < newv.len() {
        assert(newv.skip(kp) =~= seq![newv[kp]] + newv.skip(kp + 1));
        lemma_slots_items_add(seq![newv[kp]], newv.skip(kp + 1));
        assert(slots_items(seq![newv[kp]]) =~= mid) by {
            assert(seq![newv[kp]].drop_last() =~= Seq::<Option<Tree>>::empty());
            assert(seq![newv[kp]].last() == newv[kp]);
            match newtree {
                Some(t) => {
                    assert(newv[kp] == Some(t));
                    assert(slots_items(seq![newv[kp]]) == slots_items(
                        Seq::<Option<Tree>>::empty(),
                    ) + node_items(t.root));
                },
                None => {
                    assert(newv[kp] is None);
                    assert(slots_items(seq![newv[kp]]) == slots_items(
                        Seq::<Option<Tree>>::empty(),
                    ) + Seq::<Item>::empty());
                },
            }
        }
        assert(newv.skip(kp + 1) =~= if kp < oldv.len() {
            oldv.skip(kp + 1)
        } else {
            Seq::<Option<Tree>>::empty()
        });
        assert(slots_items(newv) =~= mid + sfx);
    } else {
        assert(newv.skip(kp) =~= Seq::<Option<Tree>>::empty());
        assert(mid =~= Seq::<Item>::empty());
        assert(slots_items(newv) =~= mid + sfx);
    }
    crate::perm::lemma_ms_add(pfx, sfx);
    crate::perm::lemma_ms_add(mid, sfx);
    crate::perm::lemma_ms_add(gins, pfx_live);
    // the live rows add up
    assert forall|e: Item| true implies live_ms(db).count(e) == (slots_items(oldv)
        + gins).filter(pred).to_multiset().count(e) by {
        crate::perm::lemma_filter_count(db_items(db), pred, e);
        crate::perm::lemma_filter_count(slots_items(oldv) + gins, pred, e);
        crate::perm::lemma_filter_count(pfx, pred, e);
        crate::perm::lemma_ms_add(slots_items(oldv), gins);
        if pred(e) {
            match newtree {
                Some(t) => {
                    assert(mid.to_multiset().count(e) == gins.to_multiset().count(e)
                        + pfx_live.to_multiset().count(e));
                },
                None => {
                    assert(gins.len() == 0 && pfx_live.len() == 0);
                    assert(gins.to_multiset().count(e) == 0);
                    assert(pfx_live.to_multiset().count(e) == 0);
                    assert(mid.to_multiset().count(e) == 0);
                },
            }
        }
    }
    assert(live_ms(db) =~= (slots_items(oldv) + gins).filter(pred).to_multiset());
    // well-formedness of the new forest
    lemma_inserts_of_props(rows, seq);
    assert(gins.no_duplicates()) by {
        assert forall|a: int, b: int| 0 <= a < b < gins.len() implies gins[a] != gins[b] by {
            assert(gins[a].loc == (seq, a as u32));
            assert(gins[b].loc == (seq, b as u32));
        }
    }
    gins.lemma_multiset_has_no_duplicates();
    assert forall|e: Item| true implies #[trigger] db_items(db).to_multiset().count(e)
        == gins.to_multiset().count(e) + pfx_live.to_multiset().count(e)
        + sfx.to_multiset().count(e) by {
        match newtree {
            Some(t) => {},
            None => {
                assert(gins.to_multiset().count(e) == 0);
                assert(pfx_live.to_multiset().count(e) == 0);
            },
        }
    }
    assert forall|e: Item| true implies #[trigger] pfx_live.to_multiset().count(e)
        + sfx.to_multiset().count(e) <= db_items(olddb).to_multiset().count(e) by {
        crate::perm::lemma_filter_count(pfx, pred, e);
    }
    assert forall|e: Item| db_items(db).to_multiset().count(e) > 0 implies item_wf(e) && (e.loc.0
        < db.batch_seq) by {
        if gins.to_multiset().count(e) > 0 {
            assert(gins.contains(e));
            let i = choose|i: int| 0 <= i < gins.len() && gins[i] == e;
            assert(item_wf(e) && e.loc.0 == seq);
        } else {
            assert(db_items(olddb).to_multiset().count(e) > 0);
        }
    }
    assert forall|e: Item| true implies #[trigger] db_items(db).to_multiset().count(e) <= 1 by {
        if gins.to_multiset().count(e) > 0 {
            assert(gins.contains(e));
            let i = choose|i: int| 0 <= i < gins.len() && gins[i] == e;
            assert(e.loc.0 == seq);
            if db_items(olddb).to_multiset().count(e) > 0 {
                assert(e.loc.0 < seq);
            }
            assert(pfx_live.to_multiset().count(e) + sfx.to_multiset().count(e) == 0);
        } else {
            assert(db_items(olddb).to_multiset().count(e) <= 1);
        }
    }
    assert forall|e1: Item, e2: Item|
        db_items(db).to_multiset().count(e1) > 0 && db_items(db).to_multiset().count(e2) > 0 && e1
            != e2 implies (#[trigger] e1.loc) != (#[trigger] e2.loc) by {
        let in1 = gins.to_multiset().count(e1) > 0;
        let in2 = gins.to_multiset().count(e2) > 0;
        if in1 && in2 {
            assert(gins.contains(e1) && gins.contains(e2));
            let a = choose|a: int| 0 <= a < gins.len() && gins[a] == e1;
            let b = choose|b: int| 0 <= b < gins.len() && gins[b] == e2;
            assert(a != b);
            assert(e1.loc == (seq, a as u32) && e2.loc == (seq, b as u32));
        } else if in1 {
            assert(gins.contains(e1));
            let a = choose|a: int| 0 <= a < gins.len() && gins[a] == e1;
            assert(e1.loc.0 == seq);
            assert(db_items(olddb).to_multiset().count(e2) > 0);
            assert(e2.loc.0 < seq);
        } else if in2 {
            assert(gins.contains(e2));
            let b = choose|b: int| 0 <= b < gins.len() && gins[b] == e2;
            assert(e2.loc.0 == seq);
            assert(db_items(olddb).to_multiset().count(e1) > 0);
            assert(e1.loc.0 < seq);
        } else {
            assert(db_items(olddb).to_multiset().count(e1) > 0);
            assert(db_items(olddb).to_multiset().count(e2) > 0);
        }
    }
    assert forall|k2: int|
        0 <= k2 < db.trees@.len() && db.trees@[k2] is Some implies {
        let t = (#[trigger] db.trees@[k2])->0;
        wf_shape(t.root) && wf_place(t.root, 0) && t.count == node_items(t.root).len()
    } by {
        if k2 < kp {
        } else if k2 == kp {
            match newtree {
                Some(t) => {
                    vstd::seq_lib::to_multiset_len(node_items(t.root));
                    vstd::seq_lib::to_multiset_len(gins + pfx_live);
                },
                None => {},
            }
        } else {
            assert(db.trees@[k2] == oldv[k2]);
            assert(olddb.trees@[k2] is Some);
        }
    }
}

/// Soundness over the forest slots, by induction on the slots.
proof fn lemma_slots_sound(ts: Seq<Option<Tree>>, bbox: Bbox, tombs: Seq<Location>)
    ensures
        forall|e: Item|
            #[trigger] slots_query(ts, bbox, tombs).count(e) > 0 ==> item_matches(e, bbox)
                && !tombs.contains(e.loc),
        slots_query(ts, bbox, tombs).subset_of(slots_items(ts).to_multiset()),
    decreases ts.len(),
{
    broadcast use vstd::seq_lib::group_to_multiset_ensures;

    if ts.len() == 0 {
        assert(slots_items(ts) =~= Seq::<Item>::empty());
    } else {
        lemma_slots_sound(ts.drop_last(), bbox, tombs);
        crate::perm::lemma_ms_add(
            slots_items(ts.drop_last()),
            match ts.last() {
                Some(t) => node_items(t.root),
                None => Seq::<Item>::empty(),
            },
        );
        match ts.last() {
            Some(t) => {
                lemma_query_sound(t.root, 0, bbox, tombs);
            },
            None => {},
        }
        assert forall|e: Item| #[trigger] slots_query(ts, bbox, tombs).count(e)
            <= slots_items(ts).to_multiset().count(e) by {}
    }
}

/// Soundness of a full query: every result is a live stored row that
/// intersects the box, and no row is returned more often than stored.
pub proof fn lemma_db_query_sound(db: DB, bbox: Bbox)
    ensures
        forall|e: Item|
            #[trigger] db_query_ms(db, bbox).count(e) > 0 ==> item_matches(e, bbox)
                && !db.tombstones@.contains(e.loc),
        db_query_ms(db, bbox).subset_of(db_items(db).to_multiset()),
{
    lemma_slots_sound(db.trees@, bbox, db.tombstones@);
}

/// Exactness over the forest slots: for a live, well-formed row fully
/// inside the box, each slot yields it exactly as often as it stores it.
proof fn lemma_slots_exact(
    ts: Seq<Option<Tree>>,
    bbox: Bbox,
    tombs: Seq<Location>,
    it: Item,
)
    requires
        forall|k: int|
            0 <= k < ts.len() && ts[k] is Some ==> {
                let t = (#[trigger] ts[k])->0;
                wf_shape(t.root) && wf_place(t.root, 0)
            },
        item_wf(it),
        item_within(it, bbox),
        !tombs.contains(it.loc),
    ensures
        slots_query(ts, bbox, tombs).count(it) == slots_items(ts).to_multiset().count(it),
    decreases ts.len(),
{
    broadcast use vstd::seq_lib::group_to_multiset_ensures;

    if ts.len() == 0 {
        assert(slots_items(ts) =~= Seq::<Item>::empty());
    } else {
        assert forall|k: int|
            0 <= k < ts.drop_last().len() && ts.drop_last()[k] is Some implies {
            let t = (#[trigger] ts.drop_last()[k])->0;
            wf_shape(t.root) && wf_place(t.root, 0)
        } by {
            assert(ts.drop_last()[k] == ts[k]);
        }
        lemma_slots_exact(ts.drop_last(), bbox, tombs, it);
        crate::perm::lemma_ms_add(
            slots_items(ts.drop_last()),
            match ts.last() {
                Some(t) => node_items(t.root),
                None => Seq::<Item>::empty(),
            },
        );
        match ts.last() {
            Some(t) => {
                assert(ts[ts.len() - 1] == ts.last());
                lemma_query_sound(t.root, 0, bbox, tombs);
                lemma_query_complete(t.root, 0, bbox, tombs, it);
            },
            None => {},
        }
    }
}

/// Completeness with uniqueness: a stored live row whose bounds the
/// query box fully contains is returned by the query exactly once.
pub proof fn lemma_db_query_exactly_once(db: DB, bbox: Bbox, it: Item)
    requires
        wf_db(db),
        db_items(db).to_multiset().count(it) > 0,
        item_within(it, bbox),
        !db.tombstones@.contains(it.loc),
    ensures
        db_query_ms(db, bbox).count(it) == 1,
{
    assert(item_wf(it));
    lemma_slots_exact(db.trees@, bbox, db.tombstones@, it);
    assert(db_items(db).to_multiset().count(it) <= 1);
}

/// An empty box returns nothing: a query box inverted on some axis
/// yields the empty result multiset, whatever the forest holds.
pub proof fn lemma_db_query_empty_box(db: DB, bbox: Bbox)
    requires
        !crate::query::bbox_valid(bbox),
    ensures
        db_query_ms(db, bbox) == Multiset::<Item>::empty(),
{
    broadcast use vstd::multiset::group_multiset_axioms;

    lemma_db_query_sound(db, bbox);
    assert forall|e: Item| true implies #[trigger] db_query_ms(db, bbox).count(e) == 0 by {
        if db_query_ms(db, bbox).count(e) > 0 {
            assert(item_matches(e, bbox));
        }
    }
    assert(db_query_ms(db, bbox) =~= Multiset::<Item>::empty());
}

/// Repeating a query on the same snapshot yields the same results: the
/// full result multiset is a function of the snapshot and the box
/// alone, and a drained stream emits exactly it.
pub proof fn lemma_query_idempotent(
    db: DB,
    bbox: Bbox,
    first: Multiset<Item>,
    second: Multiset<Item>,
)
    requires
        first == db_query_ms(db, bbox),
        second == db_query_ms(db, bbox),
    ensures
        first == second,
{
}

/// Sum of the stored trees' counts.
pub open spec fn sum_counts(ts: Seq<Option<Tree>>) -> nat
    decreases ts.len(),
{
    if ts.len() == 0 {
        0
    } else {
        sum_counts(ts.drop_last()) + (match ts.last() {
            Some(t) => t.count as nat,
            None => 0,
        })
    }
}

/// With exact per-tree counts, the counts sum to the stored items.
proof fn lemma_sum_counts(ts: Seq<Option<Tree>>)
    requires
        forall|k: int|
            0 <= k < ts.len() && ts[k] is Some ==> {
                let t = (#[trigger] ts[k])->0;
                t.count == node_items(t.root).len()
            },
    ensures
        sum_counts(ts) == slots_items(ts).len(),
    decreases ts.len(),
{
    if ts.len() > 0 {
        assert forall|k: int|
            0 <= k < ts.drop_last().len() && ts.drop_last()[k] is Some implies {
            let t = (#[trigger] ts.drop_last()[k])->0;
            t.count == node_items(t.root).len()
        } by {
            assert(ts.drop_last()[k] == ts[k]);
        }
        lemma_sum_counts(ts.drop_last());
        assert(ts[ts.len() - 1] == ts.last());
    }
}

/// Conservation: after any sequence of batches, once every pending
/// tombstone's row has been merged away, the tree counts sum to the
/// number of live rows.  (A tombstone aimed above the merged prefix
/// keeps its row's tree overcounting until that tree is absorbed.)
pub proof fn lemma_conservation(db: DB)
    requires
        wf_db(db),
        forall|e: Item|
            #[trigger] db_items(db).to_multiset().count(e) > 0 ==> !db.tombstones@.contains(
                e.loc,
            ),
    ensures
        sum_counts(db.trees@) == live_ms(db).len(),
{
    broadcast use vstd::seq_lib::group_to_multiset_ensures;
    broadcast use vstd::multiset::group_multiset_axioms;

    let pred = |it: Item| !db.tombstones@.contains(it.loc);
    assert forall|e: Item| true implies #[trigger] live_ms(db).count(e) == db_items(
        db,
    ).to_multiset().count(e) by {
        crate::perm::lemma_filter_count(db_items(db), pred, e);
    }
    assert(live_ms(db) =~= db_items(db).to_multiset());
    vstd::seq_lib::to_multiset_len(db_items(db));
    lemma_sum_counts(db.trees@);
}

} // verus!
