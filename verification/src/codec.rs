//! The binary tree codec: a tree is one contiguous blob holding its
//! varint-encoded live count, its bounds, and a descriptor-driven
//! layout of branch bodies, inline leaf bodies and external references.
//!
//! Each child descriptor is a 32-bit word `3 * payload + tag`: tag 0 is
//! a branch whose body starts at byte offset `payload`, tag 1 an inline
//! leaf of `payload` items, tag 2 an external tree reference.

use vstd::prelude::*;
use crate::coord::Coord;
use crate::tree::{Node, Branch, Tree, Item, wf_shape, node_eq, node_refs, nodes_refs};
use crate::Error;

verus! {

/// Little-endian bytes of `x`, `n` bytes wide.
pub open spec fn le_bytes(x: nat, n: nat) -> Seq<u8>
    decreases n,
{
    if n == 0 {
        Seq::<u8>::empty()
    } else {
        seq![(x % 256) as u8] + le_bytes(x / 256, (n - 1) as nat)
    }
}

/// The value of a little-endian byte string.
pub open spec fn le_val(s: Seq<u8>) -> nat
    decreases s.len(),
{
    if s.len() == 0 {
        0
    } else {
        s[0] as nat + 256 * le_val(s.drop_first())
    }
}

/// 256 to the `n`-th power.
pub open spec fn pow256(n: nat) -> nat
    decreases n,
{
    if n == 0 {
        1
    } else {
        256 * pow256((n - 1) as nat)
    }
}

/// A byte string is the fixed-width encoding of its own value.
pub proof fn lemma_le_id(s: Seq<u8>)
    ensures
        le_bytes(le_val(s), s.len()) == s,
        le_val(s) < pow256(s.len()),
    decreases s.len(),
{
    if s.len() == 0 {
        assert(le_bytes(le_val(s), s.len()) =~= s);
    } else {
        lemma_le_id(s.drop_first());
        let x = le_val(s);
        assert(x == s[0] + 256 * le_val(s.drop_first()));
        assert(x % 256 == s[0] && x / 256 == le_val(s.drop_first())) by {
            vstd::arithmetic::div_mod::lemma_fundamental_div_mod_converse(
                x as int,
                256,
                le_val(s.drop_first()) as int,
                s[0] as int,
            );
        }
        assert(le_bytes(x, s.len()) =~= s);
    }
}

/// The encoding of a value in range decodes back to it.
pub proof fn lemma_le_roundtrip(x: nat, n: nat)
    requires
        x < pow256(n),
    ensures
        le_bytes(x, n).len() == n,
        le_val(le_bytes(x, n)) == x,
    decreases n,
{
    if n == 0 {
    } else {
        vstd::arithmetic::div_mod::lemma_fundamental_div_mod(x as int, 256);
        assert(x / 256 < pow256((n - 1) as nat)) by {
            vstd::arithmetic::div_mod::lemma_fundamental_div_mod(x as int, 256);
        }
        lemma_le_roundtrip(x / 256, (n - 1) as nat);
        assert(le_bytes(x, n).drop_first() =~= le_bytes(x / 256, (n - 1) as nat));
    }
}

/// The fragment `frag` sits in `buf` at byte offset `off`.
pub open spec fn bytes_at(buf: Seq<u8>, off: int, frag: Seq<u8>) -> bool {
    0 <= off && off + frag.len() <= buf.len() && buf.subrange(off, off + frag.len()) == frag
}

/// A fragment splits at a concatenation boundary.
pub proof fn lemma_bytes_at_split(buf: Seq<u8>, off: int, a: Seq<u8>, b: Seq<u8>)
    requires
        bytes_at(buf, off, a + b),
    ensures
        bytes_at(buf, off, a),
        bytes_at(buf, off + a.len(), b),
{
    assert forall|k: int| 0 <= k < a.len() implies buf.subrange(off, off + a.len())[k] == a[k] by {
        assert(buf.subrange(off, off + (a + b).len())[k] == (a + b)[k]);
    }
    assert(buf.subrange(off, off + a.len()) =~= a);
    assert forall|k: int| 0 <= k < b.len() implies buf.subrange(
        off + a.len(),
        off + a.len() + b.len(),
    )[k] == b[k] by {
        assert(buf.subrange(off, off + (a + b).len())[a.len() + k] == (a + b)[a.len() + k]);
        assert((a + b)[a.len() + k] == b[k]);
    }
    assert(buf.subrange(off + a.len(), off + a.len() + b.len()) =~= b);
}

/// Adjacent fragments join into one.
pub proof fn lemma_bytes_at_join(buf: Seq<u8>, off: int, a: Seq<u8>, b: Seq<u8>)
    requires
        bytes_at(buf, off, a),
        bytes_at(buf, off + a.len(), b),
    ensures
        bytes_at(buf, off, a + b),
{
    assert forall|k: int| 0 <= k < (a + b).len() implies buf.subrange(
        off,
        off + (a + b).len(),
    )[k] == (a + b)[k] by {
        if k < a.len() {
            assert(buf.subrange(off, off + a.len())[k] == a[k]);
        } else {
            assert(buf.subrange(off + a.len(), off + a.len() + b.len())[k - a.len()] == b[k
                - a.len()]);
        }
    }
    assert(buf.subrange(off, off + (a + b).len()) =~= a + b);
}

/// Append the little-endian bytes of `x`, `width` bytes wide.
fn push_le(out: &mut Vec<u8>, x: u64, width: usize) -> (r: ())
    requires
        width <= 8,
        (x as nat) < pow256(width as nat),
    ensures
        final(out)@ == old(out)@ + le_bytes(x as nat, width as nat),
{
    let mut cur = x;
    let mut i: usize = 0;
    proof {
        assert(old(out)@ + le_bytes(x as nat, width as nat) =~= out@ + le_bytes(
            cur as nat,
            (width - i) as nat,
        ));
    }
    while i < width
        invariant
            i <= width,
            old(out)@ + le_bytes(x as nat, width as nat) == out@ + le_bytes(
                cur as nat,
                (width - i) as nat,
            ),
        decreases width - i,
    {
        let b = #[verifier::truncate] (cur as u8);
        proof {
            assert(((#[verifier::truncate] (cur as u8)) as u64) == cur % 256) by (bit_vector);
            assert(b as nat == (cur as nat) % 256);
        }
        let ghost prev = cur;
        out.push(b);
        cur = cur / 256;
        proof {
            assert(le_bytes(prev as nat, (width - i) as nat) =~= seq![b] + le_bytes(
                cur as nat,
                (width - i - 1) as nat,
            ));
            assert(old(out)@ + le_bytes(x as nat, width as nat) =~= out@ + le_bytes(
                cur as nat,
                (width - i - 1) as nat,
            ));
        }
        i += 1;
    }
    proof {
        assert(le_bytes(cur as nat, 0) =~= Seq::<u8>::empty());
        assert(out@ =~= old(out)@ + le_bytes(x as nat, width as nat));
    }
}

/// Read a `width`-byte little-endian value.
fn read_le(buf: &Vec<u8>, off: usize, width: usize) -> (r: u64)
    requires
        width <= 8,
        off + width <= buf@.len(),
    ensures
        r as nat == le_val(buf@.subrange(off as int, off + width)),
        bytes_at(buf@, off as int, le_bytes(r as nat, width as nat)),
{
    let mut acc: u64 = 0;
    let mut i: usize = width;
    let blen = buf.len();
    proof {
        assert(buf@.subrange(off + width, off + width) =~= Seq::<u8>::empty());
        lemma_pow256_le(width as nat);
    }
    while i > 0
        invariant
            i <= width,
            width <= 8,
            off + width <= blen,
            blen == buf@.len(),
            acc as nat == le_val(buf@.subrange(off + i, off + width)),
            (acc as nat) < pow256((width - i) as nat),
        decreases i,
    {
        i -= 1;
        let b = buf[off + i];
        proof {
            lemma_pow256_le((width - i) as nat);
            assert(pow256((width - i - 1) as nat) * 256 == pow256((width - i) as nat));
            assert((acc as nat) * 256 + (b as nat) < pow256((width - i) as nat)) by (
            nonlinear_arith)
                requires
                    (acc as nat) < pow256((width - i - 1) as nat),
                    (b as nat) < 256,
                    pow256((width - i - 1) as nat) * 256 == pow256((width - i) as nat),
            ;
            assert(pow256((width - i) as nat) <= pow256(8)) by {
                lemma_pow256_mono((width - i) as nat, 8);
            }
            assert(pow256(8) == 0x1_0000_0000_0000_0000) by {
                assert(pow256(0) == 1);
                assert(pow256(1) == 256);
                assert(pow256(2) == 0x1_0000);
                assert(pow256(3) == 0x100_0000);
                assert(pow256(4) == 0x1_0000_0000);
                assert(pow256(5) == 0x100_0000_0000);
                assert(pow256(6) == 0x1_0000_0000_0000);
                assert(pow256(7) == 0x100_0000_0000_0000);
            }
        }
        acc = acc * 256 + (b as u64);
        proof {
            let s = buf@.subrange(off + i, off + width);
            assert(s.drop_first() =~= buf@.subrange(off + i + 1, off + width));
            assert(s[0] == b);
            assert(acc as nat == le_val(s));
        }
    }
    proof {
        let s = buf@.subrange(off as int, off + width);
        lemma_le_id(s);
        assert(bytes_at(buf@, off as int, le_bytes(acc as nat, width as nat)));
    }
    acc
}

/// Largest value a descriptor payload can carry: `(2^32 - 1 - 2) / 3`.
pub open spec fn max_payload() -> nat {
    0x5555_5554
}

/// Variable-length (LEB128) encoding of an unsigned value: seven bits
/// per byte, high bit flagging continuation.
pub open spec fn varint_bytes(x: nat) -> Seq<u8>
    decreases x,
{
    if x < 128 {
        seq![x as u8]
    } else {
        seq![(128 + x % 128) as u8] + varint_bytes(x / 128)
    }
}

/// The unsigned two's-complement image of a scalar.
pub open spec fn i64u(x: i64) -> nat {
    if x >= 0 {
        x as nat
    } else {
        (x + 0x1_0000_0000_0000_0000) as nat
    }
}

/// A scalar's eight encoded bytes.
pub open spec fn enc_scalar(x: i64) -> Seq<u8> {
    le_bytes(i64u(x), 8)
}

/// A coordinate's bytes: one scalar, or an interval's two.
pub open spec fn enc_coord(c: Coord) -> Seq<u8> {
    match c {
        Coord::Scalar(x) => enc_scalar(x),
        Coord::Interval(a, b) => enc_scalar(a) + enc_scalar(b),
    }
}

/// The shape byte of an item: bit `k` set when axis `k` holds an
/// interval.
pub open spec fn shape_byte(it: Item) -> u8 {
    (((if it.point.0 is Interval {
        1int
    } else {
        0int
    }) + (if it.point.1 is Interval {
        2int
    } else {
        0int
    })) as u8)
}

/// One item record: shape byte, coordinates, value, location.
pub open spec fn enc_item(it: Item) -> Seq<u8> {
    seq![shape_byte(it)] + enc_coord(it.point.0) + enc_coord(it.point.1) + le_bytes(
        it.value as nat,
        4,
    ) + le_bytes(it.loc.0 as nat, 8) + le_bytes(it.loc.1 as nat, 4)
}

/// The records of a leaf's items, in order.
pub open spec fn enc_items(items: Seq<Item>) -> Seq<u8>
    decreases items.len(),
{
    if items.len() == 0 {
        Seq::<u8>::empty()
    } else {
        enc_item(items[0]) + enc_items(items.drop_first())
    }
}

/// `n` zero bytes.
pub open spec fn zeros(n: nat) -> Seq<u8> {
    Seq::new(n, |i: int| 0u8)
}

/// A leaf body: the (all-live) tombstone bitfield, then the records.
pub open spec fn enc_data(items: Seq<Item>) -> Seq<u8> {
    zeros(((items.len() + 7) / 8) as nat) + enc_items(items)
}

/// A child descriptor: the 32-bit word `3 * payload + tag`.
pub open spec fn enc_desc(tag: nat, payload: nat) -> Seq<u8> {
    le_bytes(3 * payload + tag, 4)
}

/// The length-prefixed pivot vector.
pub open spec fn enc_pivots(ps: Seq<i64>) -> Seq<u8> {
    varint_bytes(ps.len()) + enc_scalars(ps)
}

/// The pivots' scalar bytes, in order.
pub open spec fn enc_scalars(ps: Seq<i64>) -> Seq<u8>
    decreases ps.len(),
{
    if ps.len() == 0 {
        Seq::<u8>::empty()
    } else {
        enc_scalar(ps[0]) + enc_scalars(ps.drop_first())
    }
}

/// Bytes of one child's entry: its descriptor, and for a leaf the
/// inline body.
pub open spec fn entry_len(n: Node) -> nat {
    match n {
        Node::Data(items) => 4 + enc_data(items@).len(),
        Node::Ref(_) => 4,
        Node::Branch(_) => 4,
    }
}

/// Total entry bytes of a child sequence.
pub open spec fn entries_len(cs: Seq<Node>) -> nat
    decreases cs.len(),
{
    if cs.len() == 0 {
        0
    } else {
        entry_len(cs[0]) + entries_len(cs.drop_first())
    }
}

/// Bytes of this branch's own body: pivots and the children's entries.
pub open spec fn own_len(b: Branch) -> nat {
    enc_pivots(b.pivots@).len() + entries_len(b.intersections@) + entries_len(b.nodes@)
}

/// Bytes of the branch bodies in a subtree (the subtree's tail).
pub open spec fn subtree_len(n: Node) -> nat
    decreases n,
{
    match n {
        Node::Branch(b) => own_len(b) + kids_len(b.intersections@) + kids_len(b.nodes@),
        _ => 0,
    }
}

/// Tail bytes of a child sequence.
pub open spec fn kids_len(cs: Seq<Node>) -> nat
    decreases cs,
{
    if cs.len() == 0 {
        0
    } else {
        subtree_len(cs[0]) + kids_len(cs.drop_first())
    }
}

/// The entries of a child sequence, threaded with the absolute position
/// of the next branch-child body.
pub open spec fn enc_entries(cs: Seq<Node>, tpos: nat) -> Seq<u8>
    decreases cs,
{
    if cs.len() == 0 {
        Seq::<u8>::empty()
    } else {
        match cs[0] {
            Node::Data(items) => enc_desc(1, items@.len()) + enc_data(items@) + enc_entries(
                cs.drop_first(),
                tpos,
            ),
            Node::Ref(r) => enc_desc(2, r as nat) + enc_entries(cs.drop_first(), tpos),
            Node::Branch(_) => enc_desc(0, tpos) + enc_entries(
                cs.drop_first(),
                tpos + subtree_len(cs[0]),
            ),
        }
    }
}

/// The concatenated branch bodies of a child sequence's subtrees.
pub open spec fn enc_tails(cs: Seq<Node>, tpos: nat) -> Seq<u8>
    decreases cs,
{
    if cs.len() == 0 {
        Seq::<u8>::empty()
    } else {
        match cs[0] {
            Node::Branch(b) => enc_branch(b, tpos) + enc_tails(
                cs.drop_first(),
                tpos + subtree_len(cs[0]),
            ),
            _ => enc_tails(cs.drop_first(), tpos),
        }
    }
}

/// A branch body at absolute position `pos`: pivots, the intersection
/// and partition entries, then the children's branch bodies in order.
pub open spec fn enc_branch(b: Branch, pos: nat) -> Seq<u8>
    decreases b,
{
    let tail0 = pos + own_len(b);
    enc_pivots(b.pivots@) + enc_entries(b.intersections@, tail0) + enc_entries(
        b.nodes@,
        tail0 + kids_len(b.intersections@),
    ) + enc_tails(b.intersections@, tail0) + enc_tails(
        b.nodes@,
        tail0 + kids_len(b.intersections@),
    )
}

/// The root section after the header at position `hdr`.
pub open spec fn enc_root(n: Node, hdr: nat) -> Seq<u8> {
    match n {
        Node::Data(items) => enc_desc(1, items@.len()) + enc_data(items@),
        Node::Ref(r) => enc_desc(2, r as nat),
        Node::Branch(b) => enc_desc(0, hdr + 4) + enc_branch(b, hdr + 4),
    }
}

/// The whole blob: varint live count, the four bounds scalars, then
/// the root section.
pub open spec fn enc_tree(t: Tree) -> Seq<u8> {
    let hdr = varint_bytes(t.count as nat) + enc_scalar(t.bounds.0) + enc_scalar(t.bounds.1)
        + enc_scalar(t.bounds.2) + enc_scalar(t.bounds.3);
    hdr + enc_root(t.root, hdr.len())
}

/// Appending a child extends the tail length by its subtree.
proof fn lemma_kids_len_push(cs: Seq<Node>, c: Node)
    ensures
        kids_len(cs.push(c)) == kids_len(cs) + subtree_len(c),
    decreases cs,
{
    if cs.len() == 0 {
        assert(cs.push(c).drop_first() =~= Seq::<Node>::empty());
        assert(cs.push(c)[0] == c);
        assert(kids_len(cs.push(c)) == subtree_len(c) + kids_len(Seq::<Node>::empty()));
    } else {
        assert(cs.push(c).drop_first() =~= cs.drop_first().push(c));
        assert(cs.push(c)[0] == cs[0]);
        lemma_kids_len_push(cs.drop_first(), c);
        assert(kids_len(cs.push(c)) == subtree_len(cs[0]) + (kids_len(cs.drop_first())
            + subtree_len(c)));
    }
}

/// Appending a child extends the entry bytes by its entry.
proof fn lemma_entries_len_push(cs: Seq<Node>, c: Node)
    ensures
        entries_len(cs.push(c)) == entries_len(cs) + entry_len(c),
    decreases cs.len(),
{
    if cs.len() == 0 {
        assert(cs.push(c).drop_first() =~= Seq::<Node>::empty());
        assert(cs.push(c)[0] == c);
        assert(entries_len(cs.push(c)) == entry_len(c) + entries_len(Seq::<Node>::empty()));
    } else {
        assert(cs.push(c).drop_first() =~= cs.drop_first().push(c));
        assert(cs.push(c)[0] == cs[0]);
        lemma_entries_len_push(cs.drop_first(), c);
        assert(entries_len(cs.push(c)) == entry_len(cs[0]) + (entries_len(cs.drop_first())
            + entry_len(c)));
    }
}

/// Appending a child appends its entry bytes, at the threaded position.
proof fn lemma_enc_entries_push(cs: Seq<Node>, c: Node, tpos: nat)
    ensures
        enc_entries(cs.push(c), tpos) == enc_entries(cs, tpos) + (match c {
            Node::Data(items) => enc_desc(1, items@.len()) + enc_data(items@),
            Node::Ref(r) => enc_desc(2, r as nat),
            Node::Branch(_) => enc_desc(0, tpos + kids_len(cs)),
        }),
    decreases cs,
{
    let frag = match c {
        Node::Data(items) => enc_desc(1, items@.len()) + enc_data(items@),
        Node::Ref(r) => enc_desc(2, r as nat),
        Node::Branch(_) => enc_desc(0, tpos + kids_len(cs)),
    };
    if cs.len() == 0 {
        assert(cs.push(c).drop_first() =~= Seq::<Node>::empty());
        assert(cs.push(c)[0] == c);
        assert(enc_entries(cs.push(c).drop_first(), tpos) == Seq::<u8>::empty());
        assert(enc_entries(cs.push(c).drop_first(), tpos + subtree_len(c)) == Seq::<u8>::empty());
        assert(kids_len(cs) == 0);
        assert(enc_entries(cs.push(c), tpos) =~= enc_entries(cs, tpos) + frag);
    } else {
        assert(cs.push(c).drop_first() =~= cs.drop_first().push(c));
        assert(cs.push(c)[0] == cs[0]);
        match cs[0] {
            Node::Branch(_) => {
                lemma_enc_entries_push(cs.drop_first(), c, tpos + subtree_len(cs[0]));
            },
            _ => {
                lemma_enc_entries_push(cs.drop_first(), c, tpos);
            },
        }
        assert(enc_entries(cs.push(c), tpos) =~= enc_entries(cs, tpos) + frag);
    }
}

/// Appending a child appends its subtree's branch bodies.
proof fn lemma_enc_tails_push(cs: Seq<Node>, c: Node, tpos: nat)
    ensures
        enc_tails(cs.push(c), tpos) == enc_tails(cs, tpos) + (match c {
            Node::Branch(b) => enc_branch(b, tpos + kids_len(cs)),
            _ => Seq::<u8>::empty(),
        }),
    decreases cs,
{
    let frag = match c {
        Node::Branch(b) => enc_branch(b, tpos + kids_len(cs)),
        _ => Seq::<u8>::empty(),
    };
    if cs.len() == 0 {
        assert(cs.push(c).drop_first() =~= Seq::<Node>::empty());
        assert(cs.push(c)[0] == c);
        assert(enc_tails(cs.push(c).drop_first(), tpos) == Seq::<u8>::empty());
        assert(enc_tails(cs.push(c).drop_first(), tpos + subtree_len(c)) == Seq::<u8>::empty());
        assert(kids_len(cs) == 0);
        assert(enc_tails(cs.push(c), tpos) =~= enc_tails(cs, tpos) + frag);
    } else {
        assert(cs.push(c).drop_first() =~= cs.drop_first().push(c));
        assert(cs.push(c)[0] == cs[0]);
        match cs[0] {
            Node::Branch(_) => {
                lemma_enc_tails_push(cs.drop_first(), c, tpos + subtree_len(cs[0]));
            },
            _ => {
                lemma_enc_tails_push(cs.drop_first(), c, tpos);
            },
        }
        assert(enc_tails(cs.push(c), tpos) =~= enc_tails(cs, tpos) + frag);
    }
}

/// Powers of 256 are positive.
proof fn lemma_pow256_le(n: nat)
    ensures
        pow256(n) >= 1,
    decreases n,
{
    if n > 0 {
        lemma_pow256_le((n - 1) as nat);
    }
}

/// Powers of 256 grow with the exponent.
proof fn lemma_pow256_mono(a: nat, b: nat)
    requires
        a <= b,
    ensures
        pow256(a) <= pow256(b),
    decreases b,
{
    if a < b {
        lemma_pow256_mono(a, (b - 1) as nat);
        lemma_pow256_le((b - 1) as nat);
    }
}


/// The unsigned two's-complement image, as a machine integer.
fn i64_to_u64(x: i64) -> (r: u64)
    ensures
        r as nat == i64u(x),
{
    if x >= 0 {
        x as u64
    } else {
        let d: i64 = x - i64::MIN;
        (d as u64) + 0x8000_0000_0000_0000u64
    }
}

/// Back from the two's-complement image.
fn u64_to_i64(r: u64) -> (x: i64)
    ensures
        i64u(x) == r as nat,
{
    if r < 0x8000_0000_0000_0000u64 {
        r as i64
    } else {
        let d = r - 0x8000_0000_0000_0000u64;
        (d as i64) + i64::MIN
    }
}

/// Append the variable-length encoding of `x`.
fn push_varint(out: &mut Vec<u8>, x: u64)
    ensures
        final(out)@ == old(out)@ + varint_bytes(x as nat),
{
    let mut cur = x;
    proof {
        assert(old(out)@ + varint_bytes(x as nat) =~= out@ + varint_bytes(cur as nat));
    }
    loop
        invariant
            old(out)@ + varint_bytes(x as nat) == out@ + varint_bytes(cur as nat),
        decreases cur,
    {
        if cur < 128 {
            out.push(cur as u8);
            proof {
                assert(varint_bytes(cur as nat) =~= seq![cur as u8]);
                assert(out@ =~= old(out)@ + varint_bytes(x as nat));
            }
            return ;
        }
        let b = ((cur % 128) + 128) as u8;
        let ghost prev = cur;
        out.push(b);
        cur = cur / 128;
        proof {
            assert(varint_bytes(prev as nat) =~= seq![b] + varint_bytes(cur as nat));
            assert(old(out)@ + varint_bytes(x as nat) =~= out@ + varint_bytes(cur as nat));
        }
    }
}

/// Append one scalar's eight bytes.
fn push_scalar(out: &mut Vec<u8>, x: i64)
    ensures
        final(out)@ == old(out)@ + enc_scalar(x),
{
    let u = i64_to_u64(x);
    proof {
        lemma_pow64();
    }
    push_le(out, u, 8);
}

/// `pow256(8)` is the width of a 64-bit word.
proof fn lemma_pow64()
    ensures
        pow256(8) == 0x1_0000_0000_0000_0000,
        pow256(4) == 0x1_0000_0000,
{
    assert(pow256(0) == 1);
    assert(pow256(1) == 256);
    assert(pow256(2) == 0x1_0000);
    assert(pow256(3) == 0x100_0000);
    assert(pow256(4) == 0x1_0000_0000);
    assert(pow256(5) == 0x100_0000_0000);
    assert(pow256(6) == 0x1_0000_0000_0000);
    assert(pow256(7) == 0x100_0000_0000_0000);
    assert(pow256(8) == 0x1_0000_0000_0000_0000);
}

/// Append one item record.
fn push_item(out: &mut Vec<u8>, it: &Item)
    ensures
        final(out)@ == old(out)@ + enc_item(*it),
{
    let sb: u8 = (match it.point.0 {
        Coord::Scalar(_) => 0u8,
        Coord::Interval(_, _) => 1u8,
    }) + (match it.point.1 {
        Coord::Scalar(_) => 0u8,
        Coord::Interval(_, _) => 2u8,
    });
    out.push(sb);
    proof {
        assert(sb == shape_byte(*it));
    }
    match it.point.0 {
        Coord::Scalar(x) => push_scalar(out, x),
        Coord::Interval(a, b) => {
            push_scalar(out, a);
            push_scalar(out, b);
        },
    }
    match it.point.1 {
        Coord::Scalar(x) => push_scalar(out, x),
        Coord::Interval(a, b) => {
            push_scalar(out, a);
            push_scalar(out, b);
        },
    }
    proof {
        lemma_pow64();
    }
    push_le(out, it.value as u64, 4);
    push_le(out, it.loc.0, 8);
    push_le(out, it.loc.1 as u64, 4);
    proof {
        assert(final(out)@ =~= old(out)@ + enc_item(*it));
    }
}

/// Append a leaf body: the all-live bitfield, then the item records.
fn push_data(out: &mut Vec<u8>, items: &Vec<Item>)
    ensures
        final(out)@ == old(out)@ + enc_data(items@),
{
    let n_items = items.len();
    let bf_len = n_items / 8 + (if n_items % 8 != 0 {
        1
    } else {
        0
    });
    proof {
        vstd::arithmetic::div_mod::lemma_fundamental_div_mod(n_items as int, 8);
        assert(bf_len as int == (n_items + 7) / 8);
    }
    let mut k: usize = 0;
    proof {
        assert(out@ =~= old(out)@ + zeros(0));
    }
    while k < bf_len
        invariant
            k <= bf_len,
            out@ == old(out)@ + zeros(k as nat),
        decreases bf_len - k,
    {
        out.push(0u8);
        proof {
            assert(zeros((k + 1) as nat) =~= zeros(k as nat).push(0u8));
            assert(out@ =~= old(out)@ + zeros((k + 1) as nat));
        }
        k += 1;
    }
    let ghost base = out@;
    let mut k: usize = 0;
    proof {
        assert(enc_items(items@.take(0)) =~= Seq::<u8>::empty());
        assert(out@ =~= base + enc_items(items@.take(0)));
    }
    while k < items.len()
        invariant
            k <= items@.len(),
            out@ == base + enc_items(items@.take(k as int)),
            base == old(out)@ + zeros(((items@.len() + 7) / 8) as nat),
        decreases items@.len() - k,
    {
        push_item(out, &items[k]);
        proof {
            lemma_enc_items_push(items@.take(k as int), items@[k as int]);
            assert(items@.take(k + 1) =~= items@.take(k as int).push(items@[k as int]));
            assert(out@ =~= base + enc_items(items@.take(k + 1)));
        }
        k += 1;
    }
    proof {
        assert(items@.take(items@.len() as int) =~= items@);
        assert(out@ =~= old(out)@ + enc_data(items@));
    }
}

/// Appending an item appends its record.
proof fn lemma_enc_items_push(items: Seq<Item>, it: Item)
    ensures
        enc_items(items.push(it)) == enc_items(items) + enc_item(it),
    decreases items.len(),
{
    if items.len() == 0 {
        assert(items.push(it).drop_first() =~= Seq::<Item>::empty());
        assert(items.push(it)[0] == it);
        assert(enc_items(items.push(it).drop_first()) == Seq::<u8>::empty());
        assert(enc_items(items.push(it)) =~= enc_items(items) + enc_item(it));
    } else {
        assert(items.push(it).drop_first() =~= items.drop_first().push(it));
        assert(items.push(it)[0] == items[0]);
        lemma_enc_items_push(items.drop_first(), it);
        assert(enc_items(items.push(it)) =~= enc_items(items) + enc_item(it));
    }
}

/// Appending a pivot appends its scalar bytes.
proof fn lemma_enc_scalars_push(ps: Seq<i64>, p: i64)
    ensures
        enc_scalars(ps.push(p)) == enc_scalars(ps) + enc_scalar(p),
    decreases ps.len(),
{
    if ps.len() == 0 {
        assert(ps.push(p).drop_first() =~= Seq::<i64>::empty());
        assert(ps.push(p)[0] == p);
        assert(enc_scalars(ps.push(p).drop_first()) == Seq::<u8>::empty());
        assert(enc_scalars(ps.push(p)) =~= enc_scalars(ps) + enc_scalar(p));
    } else {
        assert(ps.push(p).drop_first() =~= ps.drop_first().push(p));
        assert(ps.push(p)[0] == ps[0]);
        lemma_enc_scalars_push(ps.drop_first(), p);
        assert(enc_scalars(ps.push(p)) =~= enc_scalars(ps) + enc_scalar(p));
    }
}


/// Concatenation splits entry and tail lengths.
proof fn lemma_len_cat(a: Seq<Node>, b: Seq<Node>)
    ensures
        entries_len(a + b) == entries_len(a) + entries_len(b),
        kids_len(a + b) == kids_len(a) + kids_len(b),
    decreases a.len(),
{
    if a.len() == 0 {
        assert(a + b =~= b);
    } else {
        assert((a + b).drop_first() =~= a.drop_first() + b);
        assert((a + b)[0] == a[0]);
        lemma_len_cat(a.drop_first(), b);
    }
}

/// Record bytes split at a concatenation.
proof fn lemma_enc_items_cat(a: Seq<Item>, b: Seq<Item>)
    ensures
        enc_items(a + b) == enc_items(a) + enc_items(b),
    decreases a.len(),
{
    if a.len() == 0 {
        assert(a + b =~= b);
        assert(enc_items(a) =~= Seq::<u8>::empty());
        assert(enc_items(a) + enc_items(b) =~= enc_items(b));
    } else {
        assert((a + b).drop_first() =~= a.drop_first() + b);
        assert((a + b)[0] == a[0]);
        lemma_enc_items_cat(a.drop_first(), b);
        assert(enc_items(a + b) =~= enc_items(a) + enc_items(b));
    }
}

/// Fixed-width byte strings have their stated width.
proof fn lemma_le_bytes_len(x: nat, n: nat)
    ensures
        le_bytes(x, n).len() == n,
    decreases n,
{
    if n > 0 {
        lemma_le_bytes_len(x / 256, (n - 1) as nat);
    }
}

/// Fragment lengths of the encoding pieces.
proof fn lemma_enc_entries_len(cs: Seq<Node>, tpos: nat)
    ensures
        enc_entries(cs, tpos).len() == entries_len(cs),
    decreases cs,
{
    if cs.len() > 0 {
        match cs[0] {
            Node::Branch(_) => {
                lemma_le_bytes_len(3 * tpos + 0, 4);
                lemma_enc_entries_len(cs.drop_first(), tpos + subtree_len(cs[0]));
            },
            Node::Data(items) => {
                lemma_le_bytes_len(3 * items@.len() + 1, 4);
                lemma_enc_entries_len(cs.drop_first(), tpos);
            },
            Node::Ref(r) => {
                lemma_le_bytes_len(3 * (r as nat) + 2, 4);
                lemma_enc_entries_len(cs.drop_first(), tpos);
            },
        }
    }
}

/// Tail fragment lengths match the size accounting.
proof fn lemma_enc_tails_len(cs: Seq<Node>, tpos: nat)
    ensures
        enc_tails(cs, tpos).len() == kids_len(cs),
    decreases cs,
{
    if cs.len() > 0 {
        match cs[0] {
            Node::Branch(b) => {
                lemma_enc_branch_len(b, tpos);
                lemma_enc_tails_len(cs.drop_first(), tpos + subtree_len(cs[0]));
            },
            _ => {
                lemma_enc_tails_len(cs.drop_first(), tpos);
            },
        }
    }
}

/// A branch fragment's length is its own body plus its children's.
proof fn lemma_enc_branch_len(b: Branch, pos: nat)
    ensures
        enc_branch(b, pos).len() == own_len(b) + kids_len(b.intersections@) + kids_len(b.nodes@),
    decreases b,
{
    let tail0 = pos + own_len(b);
    lemma_enc_entries_len(b.intersections@, tail0);
    lemma_enc_entries_len(b.nodes@, tail0 + kids_len(b.intersections@));
    lemma_enc_tails_len(b.intersections@, tail0);
    lemma_enc_tails_len(b.nodes@, tail0 + kids_len(b.intersections@));
}

/// Length of the variable-length encoding of `x`.
fn varint_len(x: u64) -> (r: u64)
    ensures
        r as nat == varint_bytes(x as nat).len(),
        1 <= r <= 10,
{
    let mut cur = x;
    let mut n: u64 = 1;
    proof {
        lemma_varint_len_bound(x as nat);
    }
    while cur >= 128
        invariant
            n as nat + varint_bytes(cur as nat).len() == 1 + varint_bytes(x as nat).len(),
            n >= 1,
            varint_bytes(cur as nat).len() >= 1,
            n as nat + varint_bytes(cur as nat).len() <= 11,
        decreases cur,
    {
        proof {
            lemma_varint_len_bound(cur as nat);
        }
        cur = cur / 128;
        n = n + 1;
    }
    n
}

/// A variable-length encoding is short, and steps shrink it by one.
proof fn lemma_varint_len_bound(x: nat)
    ensures
        x >= 128 ==> varint_bytes(x).len() == 1 + varint_bytes(x / 128).len(),
        x < 0x1_0000_0000_0000_0000 ==> varint_bytes(x).len() <= 10,
    decreases x,
{
    if x >= 128 {
        lemma_varint_len_bound(x / 128);
        if x < 0x1_0000_0000_0000_0000 {
            vstd::arithmetic::div_mod::lemma_fundamental_div_mod(x as int, 128);
            assert(varint_bytes(x / 128).len() <= 9) by {
                lemma_pow128_9();
                lemma_varint_len_small(x / 128, 9);
            }
        }
    }
}

/// Values below `128^n` encode in at most `n` bytes.
proof fn lemma_varint_len_small(x: nat, n: nat)
    requires
        x < pow128(n),
    ensures
        varint_bytes(x).len() <= if n == 0 {
            1nat
        } else {
            n
        },
    decreases n,
{
    if x < 128 {
    } else {
        assert(pow128(0) == 1 && pow128(1) == 128);
        assert(n >= 2);
        vstd::arithmetic::div_mod::lemma_fundamental_div_mod(x as int, 128);
        assert(x / 128 < pow128((n - 1) as nat)) by (nonlinear_arith)
            requires
                x < pow128(n),
                pow128(n) == 128 * pow128((n - 1) as nat),
                x / 128 <= (x as int) / 128,
                128 * (x / 128) <= x,
        ;
        lemma_varint_len_small(x / 128, (n - 1) as nat);
    }
}

/// 128 to the `n`-th power.
pub open spec fn pow128(n: nat) -> nat
    decreases n,
{
    if n == 0 {
        1
    } else {
        128 * pow128((n - 1) as nat)
    }
}

/// The ninth power of 128 is two to the sixty-third.
proof fn lemma_pow128_9()
    ensures
        pow128(9) == 0x8000_0000_0000_0000,
{
    assert(pow128(0) == 1);
    assert(pow128(1) == 128);
    assert(pow128(2) == 0x4000);
    assert(pow128(3) == 0x20_0000);
    assert(pow128(4) == 0x1000_0000);
    assert(pow128(5) == 0x8_0000_0000);
    assert(pow128(6) == 0x400_0000_0000);
    assert(pow128(7) == 0x2_0000_0000_0000);
    assert(pow128(8) == 0x100_0000_0000_0000);
}


/// Largest descriptor payload, as a machine constant.
const MAX_PAYLOAD: u64 = 0x5555_5554;

/// Bytes of one leaf body, or nothing when it exceeds the payload cap.
fn size_of_data(items: &Vec<Item>) -> (r: Option<u64>)
    ensures
        match r {
            Some(v) => v as nat == enc_data(items@).len() && v <= max_payload(),
            None => enc_data(items@).len() > max_payload(),
        },
{
    let n_items = items.len();
    let bf_len = n_items / 8 + (if n_items % 8 != 0 {
        1u64 as usize
    } else {
        0
    });
    proof {
        vstd::arithmetic::div_mod::lemma_fundamental_div_mod(n_items as int, 8);
        assert(bf_len as int == (n_items + 7) / 8);
    }
    if bf_len as u64 > MAX_PAYLOAD {
        proof {
            lemma_enc_items_cat(items@, Seq::<Item>::empty());
        }
        return None;
    }
    let mut acc: u64 = bf_len as u64;
    let mut k: usize = 0;
    proof {
        assert(enc_items(items@.take(0)) =~= Seq::<u8>::empty());
    }
    while k < items.len()
        invariant
            k <= items@.len(),
            acc as nat == zeros(((items@.len() + 7) / 8) as nat).len() + enc_items(
                items@.take(k as int),
            ).len(),
            acc <= MAX_PAYLOAD,
        decreases items@.len() - k,
    {
        let it = &items[k];
        let clen: u64 = 17 + (match it.point.0 {
            Coord::Scalar(_) => 8u64,
            Coord::Interval(_, _) => 16u64,
        }) + (match it.point.1 {
            Coord::Scalar(_) => 8u64,
            Coord::Interval(_, _) => 16u64,
        });
        proof {
            lemma_item_len(items@[k as int]);
            assert(clen as nat == enc_item(items@[k as int]).len());
            lemma_enc_items_push(items@.take(k as int), items@[k as int]);
            assert(items@.take(k + 1) =~= items@.take(k as int).push(items@[k as int]));
        }
        acc = acc + clen;
        if acc > MAX_PAYLOAD {
            proof {
                let whole = items@;
                assert(whole.take(k + 1) + whole.skip(k + 1) =~= whole);
                lemma_enc_items_cat(whole.take(k + 1), whole.skip(k + 1));
            }
            return None;
        }
        k += 1;
    }
    proof {
        assert(items@.take(items@.len() as int) =~= items@);
    }
    Some(acc)
}

/// The byte width of one item record.
proof fn lemma_item_len(it: Item)
    ensures
        enc_item(it).len() == 17 + (if it.point.0 is Interval {
            16int
        } else {
            8int
        }) + (if it.point.1 is Interval {
            16int
        } else {
            8int
        }),
{
    lemma_le_bytes_len(it.value as nat, 4);
    lemma_le_bytes_len(it.loc.0 as nat, 8);
    lemma_le_bytes_len(it.loc.1 as nat, 4);
    match it.point.0 {
        Coord::Scalar(x) => lemma_le_bytes_len(i64u(x), 8),
        Coord::Interval(a, b) => {
            lemma_le_bytes_len(i64u(a), 8);
            lemma_le_bytes_len(i64u(b), 8);
        },
    }
    match it.point.1 {
        Coord::Scalar(x) => lemma_le_bytes_len(i64u(x), 8),
        Coord::Interval(a, b) => {
            lemma_le_bytes_len(i64u(a), 8);
            lemma_le_bytes_len(i64u(b), 8);
        },
    }
}

/// Entry bytes of a child sequence, or nothing over the cap.
fn size_of_entries(cs: &Vec<Node>) -> (r: Option<u64>)
    ensures
        match r {
            Some(v) => v as nat == entries_len(cs@) && v <= max_payload(),
            None => entries_len(cs@) > max_payload(),
        },
    decreases cs@, 1int,
{
    let mut acc: u64 = 0;
    let mut k: usize = 0;
    proof {
        assert(entries_len(cs@.take(0)) == 0) by {
            assert(cs@.take(0) =~= Seq::<Node>::empty());
        }
    }
    while k < cs.len()
        invariant
            k <= cs@.len(),
            acc as nat == entries_len(cs@.take(k as int)),
            acc <= MAX_PAYLOAD,
        decreases cs@.len() - k,
    {
        let e: u64 = match &cs[k] {
            Node::Data(items) => {
                match size_of_data(items) {
                    Some(v) => {
                        if v > MAX_PAYLOAD - 4 {
                            proof {
                                lemma_entries_prefix_bound(cs@, k as int);
                            }
                            return None;
                        }
                        4 + v
                    },
                    None => {
                        proof {
                            lemma_entries_prefix_bound(cs@, k as int);
                        }
                        return None;
                    },
                }
            },
            Node::Ref(_) => 4,
            Node::Branch(_) => 4,
        };
        proof {
            assert(e as nat == entry_len(cs@[k as int]));
            lemma_entries_len_push(cs@.take(k as int), cs@[k as int]);
            assert(cs@.take(k + 1) =~= cs@.take(k as int).push(cs@[k as int]));
        }
        acc = acc + e;
        if acc > MAX_PAYLOAD {
            proof {
                lemma_entries_prefix_bound(cs@, k + 1);
            }
            return None;
        }
        k += 1;
    }
    proof {
        assert(cs@.take(cs@.len() as int) =~= cs@);
    }
    Some(acc)
}

/// A prefix of the entries never exceeds the whole.
proof fn lemma_entries_prefix_bound(cs: Seq<Node>, k: int)
    requires
        0 <= k <= cs.len(),
    ensures
        entries_len(cs.take(k)) <= entries_len(cs),
        entries_len(cs.take(k)) + entry_len(cs[k]) <= entries_len(cs) || k == cs.len(),
{
    assert(cs.take(k) + cs.skip(k) =~= cs);
    lemma_len_cat(cs.take(k), cs.skip(k));
    if k < cs.len() {
        assert(cs.skip(k)[0] == cs[k]);
        assert(entries_len(cs.skip(k)) == entry_len(cs[k]) + entries_len(cs.skip(k).drop_first()));
    }
}

/// A prefix of the tails never exceeds the whole.
proof fn lemma_kids_prefix_bound(cs: Seq<Node>, k: int)
    requires
        0 <= k <= cs.len(),
    ensures
        kids_len(cs.take(k)) <= kids_len(cs),
        kids_len(cs.take(k)) + subtree_len(cs[k]) <= kids_len(cs) || k == cs.len(),
{
    assert(cs.take(k) + cs.skip(k) =~= cs);
    lemma_len_cat(cs.take(k), cs.skip(k));
    if k < cs.len() {
        assert(cs.skip(k)[0] == cs[k]);
        assert(kids_len(cs.skip(k)) == subtree_len(cs[k]) + kids_len(cs.skip(k).drop_first()));
    }
}

/// Branch-body bytes of a subtree, or nothing over the cap.
fn size_of_subtree(n: &Node) -> (r: Option<u64>)
    ensures
        match r {
            Some(v) => v as nat == subtree_len(*n) && v <= max_payload(),
            None => subtree_len(*n) > max_payload(),
        },
    decreases *n, 3int,
{
    match n {
        Node::Branch(b) => {
            let pl = varint_len(b.pivots.len() as u64);
            let ghost pv = enc_pivots(b.pivots@);
            proof {
                lemma_enc_scalars_len(b.pivots@);
            }
            let scal = b.pivots.len() as u64;
            if scal > MAX_PAYLOAD / 8 {
                proof {
                    lemma_own_le_subtree(*b);
                    assert(enc_pivots(b.pivots@).len() >= 8 * b.pivots@.len());
                }
                return None;
            }
            let own0 = pl + 8 * scal;
            if own0 > MAX_PAYLOAD {
                proof {
                    lemma_own_le_subtree(*b);
                }
                return None;
            }
            let e1 = match size_of_entries(&b.intersections) {
                Some(v) => v,
                None => {
                    proof {
                        lemma_own_le_subtree(*b);
                    }
                    return None;
                },
            };
            let e2 = match size_of_entries(&b.nodes) {
                Some(v) => v,
                None => {
                    proof {
                        lemma_own_le_subtree(*b);
                    }
                    return None;
                },
            };
            let k1 = match size_of_kids(&b.intersections) {
                Some(v) => v,
                None => {
                    proof {
                        lemma_own_le_subtree(*b);
                    }
                    return None;
                },
            };
            let k2 = match size_of_kids(&b.nodes) {
                Some(v) => v,
                None => {
                    proof {
                        lemma_own_le_subtree(*b);
                    }
                    return None;
                },
            };
            let total = own0 + e1 + e2 + k1 + k2;
            if total > MAX_PAYLOAD {
                return None;
            }
            Some(total)
        },
        _ => Some(0),
    }
}

/// Tail bytes of a child sequence, or nothing over the cap.
fn size_of_kids(cs: &Vec<Node>) -> (r: Option<u64>)
    ensures
        match r {
            Some(v) => v as nat == kids_len(cs@) && v <= max_payload(),
            None => kids_len(cs@) > max_payload(),
        },
    decreases cs@, 2int,
{
    let mut acc: u64 = 0;
    let mut k: usize = 0;
    proof {
        assert(kids_len(cs@.take(0)) == 0) by {
            assert(cs@.take(0) =~= Seq::<Node>::empty());
        }
    }
    while k < cs.len()
        invariant
            k <= cs@.len(),
            acc as nat == kids_len(cs@.take(k as int)),
            acc <= MAX_PAYLOAD,
        decreases cs@.len() - k,
    {
        proof {
            assert(decreases_to!(cs@ => cs@[k as int]));
        }
        let s = match size_of_subtree(&cs[k]) {
            Some(v) => v,
            None => {
                proof {
                    lemma_kids_prefix_bound(cs@, k as int);
                }
                return None;
            },
        };
        proof {
            lemma_kids_len_push(cs@.take(k as int), cs@[k as int]);
            assert(cs@.take(k + 1) =~= cs@.take(k as int).push(cs@[k as int]));
        }
        acc = acc + s;
        if acc > MAX_PAYLOAD {
            proof {
                lemma_kids_prefix_bound(cs@, k + 1);
            }
            return None;
        }
        k += 1;
    }
    proof {
        assert(cs@.take(cs@.len() as int) =~= cs@);
    }
    Some(acc)
}

/// The pivot vector's scalar bytes are eight per pivot.
proof fn lemma_enc_scalars_len(ps: Seq<i64>)
    ensures
        enc_scalars(ps).len() == 8 * ps.len(),
    decreases ps.len(),
{
    if ps.len() > 0 {
        lemma_le_bytes_len(i64u(ps[0]), 8);
        lemma_enc_scalars_len(ps.drop_first());
    }
}

/// A branch's own body is part of its subtree bytes.
proof fn lemma_own_le_subtree(b: Branch)
    ensures
        own_len(b) <= subtree_len(Node::Branch(b)),
        entries_len(b.intersections@) <= subtree_len(Node::Branch(b)),
        entries_len(b.nodes@) <= subtree_len(Node::Branch(b)),
        kids_len(b.intersections@) <= subtree_len(Node::Branch(b)),
        kids_len(b.nodes@) <= subtree_len(Node::Branch(b)),
        enc_pivots(b.pivots@).len() <= subtree_len(Node::Branch(b)),
{
}


/// Append the length-prefixed pivot vector.
fn write_pivots(out: &mut Vec<u8>, ps: &Vec<i64>)
    ensures
        final(out)@ == old(out)@ + enc_pivots(ps@),
{
    push_varint(out, ps.len() as u64);
    let ghost base = out@;
    let mut k: usize = 0;
    proof {
        assert(enc_scalars(ps@.take(0)) =~= Seq::<u8>::empty());
        assert(out@ =~= base + enc_scalars(ps@.take(0)));
    }
    while k < ps.len()
        invariant
            k <= ps@.len(),
            out@ == base + enc_scalars(ps@.take(k as int)),
            base == old(out)@ + varint_bytes(ps@.len() as nat),
        decreases ps@.len() - k,
    {
        push_scalar(out, ps[k]);
        proof {
            lemma_enc_scalars_push(ps@.take(k as int), ps@[k as int]);
            assert(ps@.take(k + 1) =~= ps@.take(k as int).push(ps@[k as int]));
            assert(out@ =~= base + enc_scalars(ps@.take(k + 1)));
        }
        k += 1;
    }
    proof {
        assert(ps@.take(ps@.len() as int) =~= ps@);
        assert(out@ =~= old(out)@ + enc_pivots(ps@));
    }
}

/// Append a 32-bit descriptor word.
fn write_desc(out: &mut Vec<u8>, tag: u64, payload: u64)
    requires
        tag <= 2,
        payload <= 0x5555_5554,
    ensures
        final(out)@ == old(out)@ + enc_desc(tag as nat, payload as nat),
{
    proof {
        lemma_pow64();
    }
    push_le(out, 3 * payload + tag, 4);
}

/// Append the entries of a child sequence.  Fails when a leaf count or
/// reference does not fit a descriptor payload.
fn write_entries(out: &mut Vec<u8>, cs: &Vec<Node>, tpos: u64) -> (r: Result<(), Error>)
    requires
        (tpos as nat) + kids_len(cs@) <= max_payload(),
    ensures
        r is Ok ==> final(out)@ == old(out)@ + enc_entries(cs@, tpos as nat),
        fits_entries(cs@, tpos as nat) ==> r is Ok,
{
    let mut k: usize = 0;
    let mut cur = tpos;
    proof {
        assert(enc_entries(cs@.take(0), tpos as nat) =~= Seq::<u8>::empty());
        assert(out@ =~= old(out)@ + enc_entries(cs@.take(0), tpos as nat));
        assert(kids_len(cs@.take(0)) == 0) by {
            assert(cs@.take(0) =~= Seq::<Node>::empty());
        }
        assert(cs@.skip(0) =~= cs@);
    }
    while k < cs.len()
        invariant
            k <= cs@.len(),
            cur as nat == tpos + kids_len(cs@.take(k as int)),
            cur as nat + kids_len(cs@.skip(k as int)) <= max_payload(),
            out@ == old(out)@ + enc_entries(cs@.take(k as int), tpos as nat),
            fits_entries(cs@, tpos as nat) ==> fits_entries(cs@.skip(k as int), cur as nat),
        decreases cs@.len() - k,
    {
        proof {
            assert(cs@.take(k as int) + cs@.skip(k as int) =~= cs@);
            assert(cs@.skip(k as int)[0] == cs@[k as int]);
            assert(cs@.skip(k as int).drop_first() =~= cs@.skip(k + 1));
            assert(kids_len(cs@.skip(k as int)) == subtree_len(cs@[k as int]) + kids_len(
                cs@.skip(k + 1),
            ));
            lemma_enc_entries_push(cs@.take(k as int), cs@[k as int], tpos as nat);
            assert(cs@.take(k + 1) =~= cs@.take(k as int).push(cs@[k as int]));
            lemma_kids_len_push(cs@.take(k as int), cs@[k as int]);
        }
        match &cs[k] {
            Node::Data(items) => {
                if items.len() as u64 > MAX_PAYLOAD {
                    return Err(Error::TooLarge);
                }
                write_desc(out, 1, items.len() as u64);
                push_data(out, items);
            },
            Node::Ref(rf) => {
                if *rf > MAX_PAYLOAD {
                    return Err(Error::TooLarge);
                }
                write_desc(out, 2, *rf);
            },
            Node::Branch(_) => {
                write_desc(out, 0, cur);
                proof {
                    assert(decreases_to!(cs@ => cs@[k as int]));
                }
                let s = match size_of_subtree(&cs[k]) {
                    Some(v) => v,
                    None => {
                        proof {
                            assert(false);
                        }
                        return Err(Error::TooLarge);
                    },
                };
                cur = cur + s;
            },
        }
        proof {
            assert(out@ =~= old(out)@ + enc_entries(cs@.take(k + 1), tpos as nat));
        }
        k += 1;
    }
    proof {
        assert(cs@.take(cs@.len() as int) =~= cs@);
    }
    Ok(())
}

/// Append the branch bodies of a child sequence's subtrees.
fn write_tails(out: &mut Vec<u8>, cs: &Vec<Node>, tpos: u64) -> (r: Result<(), Error>)
    requires
        old(out)@.len() == tpos,
        (tpos as nat) + kids_len(cs@) <= max_payload(),
    ensures
        r is Ok ==> final(out)@ == old(out)@ + enc_tails(cs@, tpos as nat),
        fits_tails(cs@, tpos as nat) ==> r is Ok,
    decreases cs@, 2int,
{
    let mut k: usize = 0;
    let mut cur = tpos;
    proof {
        assert(enc_tails(cs@.take(0), tpos as nat) =~= Seq::<u8>::empty());
        assert(out@ =~= old(out)@ + enc_tails(cs@.take(0), tpos as nat));
        assert(kids_len(cs@.take(0)) == 0) by {
            assert(cs@.take(0) =~= Seq::<Node>::empty());
        }
        assert(cs@.skip(0) =~= cs@);
        lemma_enc_tails_len(cs@.take(0), tpos as nat);
    }
    while k < cs.len()
        invariant
            k <= cs@.len(),
            cur as nat == tpos + kids_len(cs@.take(k as int)),
            cur as nat + kids_len(cs@.skip(k as int)) <= max_payload(),
            out@ == old(out)@ + enc_tails(cs@.take(k as int), tpos as nat),
            out@.len() == cur,
            fits_tails(cs@, tpos as nat) ==> fits_tails(cs@.skip(k as int), cur as nat),
        decreases cs@.len() - k,
    {
        proof {
            assert(cs@.take(k as int) + cs@.skip(k as int) =~= cs@);
            assert(cs@.skip(k as int)[0] == cs@[k as int]);
            assert(cs@.skip(k as int).drop_first() =~= cs@.skip(k + 1));
            assert(kids_len(cs@.skip(k as int)) == subtree_len(cs@[k as int]) + kids_len(
                cs@.skip(k + 1),
            ));
            lemma_enc_tails_push(cs@.take(k as int), cs@[k as int], tpos as nat);
            assert(cs@.take(k + 1) =~= cs@.take(k as int).push(cs@[k as int]));
            lemma_kids_len_push(cs@.take(k as int), cs@[k as int]);
        }
        match &cs[k] {
            Node::Branch(b) => {
                proof {
                    assert(decreases_to!(cs@ => cs@[k as int]));
                }
                match write_branch(out, b, cur) {
                    Ok(_) => {},
                    Err(e) => {
                        return Err(e);
                    },
                }
                proof {
                    lemma_enc_branch_len(*b, cur as nat);
                }
                let s = match size_of_subtree(&cs[k]) {
                    Some(v) => v,
                    None => {
                        proof {
                            assert(false);
                        }
                        return Err(Error::TooLarge);
                    },
                };
                cur = cur + s;
            },
            _ => {},
        }
        proof {
            assert(out@ =~= old(out)@ + enc_tails(cs@.take(k + 1), tpos as nat));
        }
        k += 1;
    }
    proof {
        assert(cs@.take(cs@.len() as int) =~= cs@);
    }
    Ok(())
}

/// Append one branch body at absolute position `pos`.
fn write_branch(out: &mut Vec<u8>, b: &Branch, pos: u64) -> (r: Result<(), Error>)
    requires
        old(out)@.len() == pos,
        (pos as nat) + subtree_len(Node::Branch(*b)) <= max_payload(),
    ensures
        r is Ok ==> final(out)@ == old(out)@ + enc_branch(*b, pos as nat),
        fits_branch(*b, pos as nat) ==> r is Ok,
    decreases *b, 3int,
{
    proof {
        lemma_own_le_subtree(*b);
    }
    let own = match size_of_subtree_own(b) {
        Some(v) => v,
        None => {
            proof {
                assert(false);
            }
            return Err(Error::TooLarge);
        },
    };
    let k1 = match size_of_kids(&b.intersections) {
        Some(v) => v,
        None => {
            proof {
                assert(false);
            }
            return Err(Error::TooLarge);
        },
    };
    write_pivots(out, &b.pivots);
    let tail0 = pos + own;
    match write_entries(out, &b.intersections, tail0) {
        Ok(_) => {},
        Err(e) => {
            return Err(e);
        },
    }
    match write_entries(out, &b.nodes, tail0 + k1) {
        Ok(_) => {},
        Err(e) => {
            return Err(e);
        },
    }
    proof {
        lemma_enc_entries_len(b.intersections@, (tail0) as nat);
        lemma_enc_entries_len(b.nodes@, (tail0 + k1) as nat);
        assert(out@.len() == tail0);
    }
    match write_tails(out, &b.intersections, tail0) {
        Ok(_) => {},
        Err(e) => {
            return Err(e);
        },
    }
    proof {
        lemma_enc_tails_len(b.intersections@, tail0 as nat);
    }
    match write_tails(out, &b.nodes, tail0 + k1) {
        Ok(_) => {},
        Err(e) => {
            return Err(e);
        },
    }
    proof {
        assert(out@ =~= old(out)@ + enc_branch(*b, pos as nat));
    }
    Ok(())
}

/// This branch's own body length, or nothing over the cap.
fn size_of_subtree_own(b: &Branch) -> (r: Option<u64>)
    ensures
        match r {
            Some(v) => v as nat == own_len(*b) && v <= max_payload(),
            None => own_len(*b) > max_payload(),
        },
{
    let pl = varint_len(b.pivots.len() as u64);
    proof {
        lemma_enc_scalars_len(b.pivots@);
    }
    let scal = b.pivots.len() as u64;
    if scal > MAX_PAYLOAD / 8 {
        return None;
    }
    let own0 = pl + 8 * scal;
    if own0 > MAX_PAYLOAD {
        return None;
    }
    let e1 = match size_of_entries(&b.intersections) {
        Some(v) => v,
        None => {
            return None;
        },
    };
    let e2 = match size_of_entries(&b.nodes) {
        Some(v) => v,
        None => {
            return None;
        },
    };
    let total = own0 + e1 + e2;
    if total > MAX_PAYLOAD {
        return None;
    }
    Some(total)
}


/// The blob header's length: the varint-encoded count and four
/// bounds scalars.
pub open spec fn hdr_len(t: Tree) -> nat {
    varint_bytes(t.count as nat).len() + 32
}

/// The header bytes a tree's count and bounds encode to.
pub open spec fn hdr_bytes(t: Tree) -> Seq<u8> {
    varint_bytes(t.count as nat) + enc_scalar(t.bounds.0) + enc_scalar(t.bounds.1) + enc_scalar(
        t.bounds.2,
    ) + enc_scalar(t.bounds.3)
}

/// The tree is encodable: every descriptor payload of its blob fits
/// the 32-bit word — the root leaf's item count or the root reference,
/// or for a branch root the whole blob length and every reference in
/// the tree.
pub open spec fn enc_ok(t: Tree) -> bool {
    match t.root {
        Node::Data(i) => i@.len() <= max_payload(),
        Node::Ref(r) => (r as nat) <= max_payload(),
        Node::Branch(_) => {
            &&& hdr_len(t) + 4 + subtree_len(t.root) <= max_payload()
            &&& (forall|j: int|
                0 <= j < node_refs(t.root).len() ==> ((node_refs(t.root)[j]) as nat)
                    <= max_payload())
        },
    }
}

impl Tree {
    /// Encode this tree as one contiguous blob.  Succeeds exactly when
    /// every descriptor payload fits its 32-bit word.
    pub fn to_bytes(&self) -> (r: Result<Vec<u8>, Error>)
        ensures
            r matches Ok(v) ==> v@ == enc_tree(*self),
            r is Ok <==> enc_ok(*self),
    {
        let mut out: Vec<u8> = Vec::new();
        push_varint(&mut out, self.count as u64);
        push_scalar(&mut out, self.bounds.0);
        push_scalar(&mut out, self.bounds.1);
        push_scalar(&mut out, self.bounds.2);
        push_scalar(&mut out, self.bounds.3);
        let ghost hdr = out@;
        proof {
            lemma_le_bytes_len(i64u(self.bounds.0), 8);
            lemma_le_bytes_len(i64u(self.bounds.1), 8);
            lemma_le_bytes_len(i64u(self.bounds.2), 8);
            lemma_le_bytes_len(i64u(self.bounds.3), 8);
            assert(hdr.len() == hdr_len(*self));
        }
        match &self.root {
            Node::Data(items) => {
                if items.len() as u64 > MAX_PAYLOAD {
                    return Err(Error::TooLarge);
                }
                write_desc(&mut out, 1, items.len() as u64);
                push_data(&mut out, items);
                proof {
                    assert(out@ =~= hdr + enc_root(self.root, hdr.len()));
                    assert(out@ =~= enc_tree(*self));
                }
                Ok(out)
            },
            Node::Ref(rf) => {
                if *rf > MAX_PAYLOAD {
                    return Err(Error::TooLarge);
                }
                write_desc(&mut out, 2, *rf);
                proof {
                    assert(out@ =~= hdr + enc_root(self.root, hdr.len()));
                    assert(out@ =~= enc_tree(*self));
                }
                Ok(out)
            },
            Node::Branch(b) => {
                let (_, refs) = self.list();
                let mut k: usize = 0;
                while k < refs.len()
                    invariant
                        k <= refs@.len(),
                        refs@ == node_refs(self.root),
                        forall|j: int| 0 <= j < k ==> ((refs@[j]) as nat) <= max_payload(),
                    decreases refs@.len() - k,
                {
                    if refs[k] > MAX_PAYLOAD {
                        proof {
                            assert(((node_refs(self.root)[k as int]) as nat) > max_payload());
                        }
                        return Err(Error::TooLarge);
                    }
                    k += 1;
                }
                let sz = match size_of_subtree(&self.root) {
                    Some(v) => v,
                    None => {
                        return Err(Error::TooLarge);
                    },
                };
                let hlen = out.len() as u64;
                proof {
                    lemma_varint_len_bound(self.count as nat);
                    assert(hlen <= 42);
                }
                if hlen + 4 + sz > MAX_PAYLOAD {
                    return Err(Error::TooLarge);
                }
                let pos = hlen + 4;
                write_desc(&mut out, 0, pos);
                proof {
                    lemma_le_bytes_len(3 * (pos as nat) + 0, 4);
                    assert(out@.len() == pos);
                    lemma_fits_branch_from(*b, pos as nat);
                }
                match write_branch(&mut out, b, pos) {
                    Ok(_) => {},
                    Err(e) => {
                        proof {
                            assert(false);
                        }
                        return Err(e);
                    },
                }
                proof {
                    assert(out@ =~= hdr + enc_root(self.root, hdr.len()));
                    assert(out@ =~= enc_tree(*self));
                }
                Ok(out)
            },
        }
    }

    /// Decode a tree blob, following spec layout: a record whose
    /// tombstone bit is set is read past and dropped.  The returned
    /// tree is structurally well shaped; blobs that break the layout or
    /// shape are refused.  A tree read from a tombstoned blob cannot be
    /// tied to `enc_tree`, which models all-live blobs only; for the
    /// verified byte-exact decode use `from_bytes_exact`.
    pub fn from_bytes(bytes: &Vec<u8>) -> (r: Result<Tree, Error>)
        ensures
            r matches Ok(t) ==> wf_shape(t.root) && bytes_at(bytes@, 0, hdr_bytes(t)),
    {
        let mut skipped = false;
        match Tree::parse_tree(bytes, &mut skipped) {
            Ok(t) => Ok(t),
            Err(e) => Err(e),
        }
    }

    /// Decode a tree blob and verify the result: the returned tree
    /// re-encodes byte-for-byte to the input, so the blob determines
    /// it.  Any blob with a tombstoned record, and any blob that is not
    /// the canonical encoding of its own decode, is refused.  The
    /// success side is witnessed by tests, not stated: proving that
    /// every encoded tree is accepted would need a verified parser
    /// mirror of the layout.
    pub fn from_bytes_exact(bytes: &Vec<u8>) -> (r: Result<Tree, Error>)
        ensures
            r matches Ok(t) ==> wf_shape(t.root) && enc_ok(t) && bytes@ == enc_tree(t),
            forall|t0: Tree|
                wf_shape(t0.root) && enc_ok(t0) && bytes@ == enc_tree(t0) ==> (r matches Ok(t)
                    ==> node_eq(t.root, t0.root) && t.count == t0.count && t.bounds == t0.bounds),
    {
        let mut skipped = false;
        let t = match Tree::parse_tree(bytes, &mut skipped) {
            Ok(t) => t,
            Err(e) => {
                return Err(e);
            },
        };
        if skipped {
            return Err(Error::Malformed);
        }
        let blob2 = match t.to_bytes() {
            Ok(v) => v,
            Err(_) => {
                return Err(Error::Malformed);
            },
        };
        if !bytes_eq(bytes, &blob2) {
            return Err(Error::Malformed);
        }
        proof {
            assert(bytes@ == enc_tree(t));
            assert forall|t0: Tree|
                wf_shape(t0.root) && enc_ok(t0) && bytes@ == enc_tree(t0) implies node_eq(
                t.root,
                t0.root,
            ) && t.count == t0.count && t.bounds == t0.bounds by {
                lemma_unambiguous_from_enc_ok(t, t0);
            }
        }
        Ok(t)
    }

    /// Parse a tree blob, setting `skipped` when a tombstoned record
    /// was dropped.  A decoded tree's count and bounds are exactly what
    /// the blob's header holds.
    fn parse_tree(bytes: &Vec<u8>, skipped: &mut bool) -> (r: Result<Tree, Error>)
        ensures
            r matches Ok(t) ==> wf_shape(t.root) && bytes_at(bytes@, 0, hdr_bytes(t)),
    {
        let (count64, mut off) = match parse_varint(bytes, 0) {
            Ok(v) => v,
            Err(e) => {
                return Err(e);
            },
        };
        if count64 > usize::MAX as u64 {
            return Err(Error::TooLarge);
        }
        let count = count64 as usize;
        let (b0, o1) = match parse_scalar(bytes, off) {
            Ok(v) => v,
            Err(e) => {
                return Err(e);
            },
        };
        let (b1, o2) = match parse_scalar(bytes, o1) {
            Ok(v) => v,
            Err(e) => {
                return Err(e);
            },
        };
        let (b2, o3) = match parse_scalar(bytes, o2) {
            Ok(v) => v,
            Err(e) => {
                return Err(e);
            },
        };
        let (b3, o4) = match parse_scalar(bytes, o3) {
            Ok(v) => v,
            Err(e) => {
                return Err(e);
            },
        };
        off = o4;
        if off > bytes.len() || bytes.len() - off < 4 {
            return Err(Error::Truncated);
        }
        let d = read_le(bytes, off, 4);
        off = off + 4;
        let tag = d % 3;
        let payload = d / 3;
        let root: Node;
        if tag == 0 {
            if payload < off as u64 || payload > usize::MAX as u64 {
                return Err(Error::BadOffset);
            }
            let (n, _end) = match parse_branch(bytes, payload as usize, skipped) {
                Ok(v) => v,
                Err(e) => {
                    return Err(e);
                },
            };
            root = n;
        } else if tag == 1 {
            if payload > usize::MAX as u64 {
                return Err(Error::TooLarge);
            }
            let (items, _end) = match parse_data(bytes, off, payload as usize, skipped) {
                Ok(v) => v,
                Err(e) => {
                    return Err(e);
                },
            };
            root = Node::Data(items);
        } else {
            root = Node::Ref(payload);
        }
        let t = Tree { root, bounds: (b0, b1, b2, b3), count };
        proof {
            assert(t.count as nat == count64 as nat);
            let va = varint_bytes(t.count as nat);
            lemma_le_bytes_len(i64u(b0), 8);
            lemma_le_bytes_len(i64u(b1), 8);
            lemma_le_bytes_len(i64u(b2), 8);
            lemma_le_bytes_len(i64u(b3), 8);
            lemma_bytes_at_join(bytes@, 0, va, enc_scalar(b0));
            lemma_bytes_at_join(bytes@, 0, va + enc_scalar(b0), enc_scalar(b1));
            lemma_bytes_at_join(bytes@, 0, va + enc_scalar(b0) + enc_scalar(b1), enc_scalar(b2));
            lemma_bytes_at_join(
                bytes@,
                0,
                va + enc_scalar(b0) + enc_scalar(b1) + enc_scalar(b2),
                enc_scalar(b3),
            );
            assert(bytes_at(bytes@, 0, hdr_bytes(t)));
        }
        Ok(t)
    }
}

/// Byte-for-byte equality of two buffers.
fn bytes_eq(a: &Vec<u8>, b: &Vec<u8>) -> (r: bool)
    ensures
        r == (a@ == b@),
{
    if a.len() != b.len() {
        proof {
            assert(a@ != b@);
        }
        return false;
    }
    let mut k: usize = 0;
    while k < a.len()
        invariant
            k <= a@.len(),
            a@.len() == b@.len(),
            forall|j: int| 0 <= j < k ==> a@[j] == b@[j],
        decreases a@.len() - k,
    {
        if a[k] != b[k] {
            proof {
                assert(a@[k as int] != b@[k as int]);
            }
            return false;
        }
        k += 1;
    }
    proof {
        assert(a@ =~= b@);
    }
    true
}

/// Two well-shaped, encodable trees with the same blob are the same
/// tree.
proof fn lemma_unambiguous_from_enc_ok(t1: Tree, t2: Tree)
    requires
        wf_shape(t1.root),
        wf_shape(t2.root),
        enc_ok(t1),
        enc_ok(t2),
        enc_tree(t1) == enc_tree(t2),
    ensures
        node_eq(t1.root, t2.root),
        t1.count == t2.count,
        t1.bounds == t2.bounds,
{
    match t1.root {
        Node::Branch(b) => {
            lemma_fits_branch_from(b, hdr_len(t1) + 4);
        },
        _ => {},
    }
    match t2.root {
        Node::Branch(b) => {
            lemma_fits_branch_from(b, hdr_len(t2) + 4);
        },
        _ => {},
    }
    lemma_codec_unambiguous(t1, t2);
}

/// Parse a variable-length unsigned value.

/// Parse a variable-length unsigned value.
fn parse_varint(buf: &Vec<u8>, off: usize) -> (r: Result<(u64, usize), Error>)
    ensures
        r matches Ok(v) ==> off < v.1 <= buf@.len() && bytes_at(
            buf@,
            off as int,
            varint_bytes(v.0 as nat),
        ) && v.1 as int == off + varint_bytes(v.0 as nat).len(),
    decreases buf@.len() - off,
{
    let blen = buf.len();
    if off >= blen {
        return Err(Error::Truncated);
    }
    let b = buf[off];
    if b < 128 {
        proof {
            assert(varint_bytes(b as nat) =~= seq![b]);
            assert(buf@.subrange(off as int, off + 1) =~= seq![b]);
        }
        return Ok((b as u64, off + 1));
    }
    let (rest, end) = match parse_varint(buf, off + 1) {
        Ok(v) => v,
        Err(e) => {
            return Err(e);
        },
    };
    if rest == 0 {
        // a continuation byte followed by the value zero never comes
        // from the encoder: refuse the non-canonical form
        return Err(Error::Malformed);
    }
    if rest > (u64::MAX - 127) / 128 {
        return Err(Error::VarintOverflow);
    }
    let low = (b - 128) as u64;
    proof {
        vstd::arithmetic::div_mod::lemma_fundamental_div_mod((u64::MAX - 127) as int, 128);
    }
    let v = low + 128 * rest;
    proof {
        vstd::arithmetic::div_mod::lemma_fundamental_div_mod_converse(
            v as int,
            128,
            rest as int,
            low as int,
        );
        assert((v as nat) % 128 == low as nat && (v as nat) / 128 == rest as nat);
        assert(varint_bytes(v as nat) =~= seq![b] + varint_bytes(rest as nat)) by {
            assert((128 + (v as nat) % 128) as u8 == b);
        }
        let lr = varint_bytes(rest as nat).len();
        assert(buf@.subrange(off as int, off + 1 + lr) =~= seq![b] + buf@.subrange(
            off + 1,
            off + 1 + lr,
        ));
        assert(buf@.subrange(off + 1, off + 1 + lr) == varint_bytes(rest as nat));
        assert(bytes_at(buf@, off as int, varint_bytes(v as nat)));
    }
    Ok((v, end))
}

/// Parse one scalar./// Parse one scalar.
fn parse_scalar(buf: &Vec<u8>, off: usize) -> (r: Result<(i64, usize), Error>)
    ensures
        r matches Ok(v) ==> off < v.1 <= buf@.len() && bytes_at(
            buf@,
            off as int,
            enc_scalar(v.0),
        ) && v.1 == off + 8,
{
    if off > buf.len() || buf.len() - off < 8 {
        return Err(Error::Truncated);
    }
    let u = read_le(buf, off, 8);
    Ok((u64_to_i64(u), off + 8))
}

/// Parse a leaf body of `count` records.  A record whose tombstone bit
/// is set is read past and dropped, and `skipped` records that it
/// happened.
fn parse_data(buf: &Vec<u8>, off: usize, count: usize, skipped: &mut bool) -> (r: Result<
    (Vec<Item>, usize),
    Error,
>)
    ensures
        r matches Ok(v) ==> off <= v.1 <= buf@.len(),
{
    let blen = buf.len();
    if off > blen {
        return Err(Error::Truncated);
    }
    let bf_len = count / 8 + (if count % 8 != 0 {
        1
    } else {
        0
    });
    if blen - off < bf_len {
        return Err(Error::Truncated);
    }
    let mut cur = off + bf_len;
    let mut items: Vec<Item> = Vec::new();
    let mut k: usize = 0;
    while k < count
        invariant
            k <= count,
            off <= cur <= blen,
            off + bf_len <= blen,
            bf_len as int == count / 8 + (if count % 8 != 0 {
                1int
            } else {
                0
            }),
            blen == buf@.len(),
        decreases count - k,
    {
        if blen - cur < 1 {
            return Err(Error::Truncated);
        }
        let sb = buf[cur];
        cur = cur + 1;
        if sb >= 4 {
            return Err(Error::Malformed);
        }
        let cx: Coord;
        if sb & 1 == 1 {
            let (a, o1) = match parse_scalar(buf, cur) {
                Ok(v) => v,
                Err(e) => {
                    return Err(e);
                },
            };
            let (b, o2) = match parse_scalar(buf, o1) {
                Ok(v) => v,
                Err(e) => {
                    return Err(e);
                },
            };
            cx = Coord::Interval(a, b);
            cur = o2;
        } else {
            let (a, o1) = match parse_scalar(buf, cur) {
                Ok(v) => v,
                Err(e) => {
                    return Err(e);
                },
            };
            cx = Coord::Scalar(a);
            cur = o1;
        }
        let cy: Coord;
        if sb & 2 == 2 {
            let (a, o1) = match parse_scalar(buf, cur) {
                Ok(v) => v,
                Err(e) => {
                    return Err(e);
                },
            };
            let (b, o2) = match parse_scalar(buf, o1) {
                Ok(v) => v,
                Err(e) => {
                    return Err(e);
                },
            };
            cy = Coord::Interval(a, b);
            cur = o2;
        } else {
            let (a, o1) = match parse_scalar(buf, cur) {
                Ok(v) => v,
                Err(e) => {
                    return Err(e);
                },
            };
            cy = Coord::Scalar(a);
            cur = o1;
        }
        if cur > blen || blen - cur < 16 {
            return Err(Error::Truncated);
        }
        let value = read_le(buf, cur, 4);
        let l0 = read_le(buf, cur + 4, 8);
        let l1 = read_le(buf, cur + 12, 4);
        cur = cur + 16;
        // spec layout: bit `k % 8` of bitfield byte `k / 8` marks the
        // record deleted; a deleted record is parsed but not returned
        proof {
            vstd::arithmetic::div_mod::lemma_fundamental_div_mod(k as int, 8);
            vstd::arithmetic::div_mod::lemma_fundamental_div_mod(count as int, 8);
            assert(k / 8 < bf_len) by (nonlinear_arith)
                requires
                    k < count,
                    8 * (k / 8) + k % 8 == k,
                    0 <= k % 8 < 8,
                    8 * (count / 8) + count % 8 == count,
                    0 <= count % 8 < 8,
                    bf_len as int == count / 8 + (if count % 8 != 0 {
                        1int
                    } else {
                        0
                    }),
            ;
        }
        let flag_byte = buf[off + k / 8];
        let deleted = (flag_byte >> ((k % 8) as u32)) & 1 == 1;
        if deleted {
            *skipped = true;
        } else {
            items.push(
                Item {
                    point: (cx, cy),
                    value: value as u32,
                    loc: (l0, l1 as u32),
                },
            );
        }
        k += 1;
    }
    Ok((items, cur))
}

/// Parse a branch body at `off`, recursing into child branch bodies at
/// strictly later offsets.  The returned node is well shaped.
#[verifier::loop_isolation(false)]
fn parse_branch(buf: &Vec<u8>, off: usize, skipped: &mut bool) -> (r: Result<
    (Node, usize),
    Error,
>)
    ensures
        r matches Ok(v) ==> v.0 is Branch && wf_shape(v.0) && off < v.1 <= buf@.len(),
    decreases buf@.len() - off,
{
    let blen = buf.len();
    if off >= blen {
        return Err(Error::Truncated);
    }
    let (m64, mut cur) = match parse_varint(buf, off) {
        Ok(v) => v,
        Err(e) => {
            return Err(e);
        },
    };
    if m64 == 0 || m64 >= blen as u64 {
        return Err(Error::Malformed);
    }
    let m = m64 as usize;
    let mut pivots: Vec<i64> = Vec::new();
    let mut k: usize = 0;
    while k < m
        invariant
            k <= m,
            pivots@.len() == k,
            off < cur <= blen,
        decreases m - k,
    {
        let (p, o1) = match parse_scalar(buf, cur) {
            Ok(v) => v,
            Err(e) => {
                return Err(e);
            },
        };
        pivots.push(p);
        cur = o1;
        k += 1;
    }
    let mut intersections: Vec<Node> = Vec::new();
    let mut k: usize = 0;
    while k < m
        invariant
            k <= m,
            intersections@.len() == k,
            off < cur <= blen,
            forall|i: int| 0 <= i < k ==> wf_shape(#[trigger] intersections@[i]),
        decreases m - k,
    {
        let (n, o1) = match parse_entry(buf, cur, off, skipped) {
            Ok(v) => v,
            Err(e) => {
                return Err(e);
            },
        };
        intersections.push(n);
        cur = o1;
        k += 1;
    }
    let mut nodes: Vec<Node> = Vec::new();
    let mut k: usize = 0;
    while k < m + 1
        invariant
            k <= m + 1,
            nodes@.len() == k,
            off < cur <= blen,
            forall|i: int| 0 <= i < k ==> wf_shape(#[trigger] nodes@[i]),
        decreases m + 1 - k,
    {
        let (n, o1) = match parse_entry(buf, cur, off, skipped) {
            Ok(v) => v,
            Err(e) => {
                return Err(e);
            },
        };
        nodes.push(n);
        cur = o1;
        k += 1;
    }
    let b = Branch { pivots, intersections, nodes };
    let n = Node::Branch(b);
    proof {
        assert(wf_shape(n));
    }
    Ok((n, cur))
}

/// Parse one child entry at `cur`, inside a branch body that began at
/// `body_off`: an inline leaf, an external reference, or a branch body
/// at a strictly later offset.
#[verifier::loop_isolation(false)]
fn parse_entry(buf: &Vec<u8>, cur: usize, body_off: usize, skipped: &mut bool) -> (r: Result<
    (Node, usize),
    Error,
>)
    requires
        body_off < cur,
    ensures
        r matches Ok(v) ==> wf_shape(v.0) && cur < v.1 <= buf@.len(),
    decreases buf@.len() - body_off, 0int,
{
    let blen = buf.len();
    if cur > blen || blen - cur < 4 {
        return Err(Error::Truncated);
    }
    let d = read_le(buf, cur, 4);
    let after = cur + 4;
    let tag = d % 3;
    let payload = d / 3;
    if tag == 0 {
        if payload <= body_off as u64 || payload > blen as u64 {
            return Err(Error::BadOffset);
        }
        let child_off = payload as usize;
        if child_off <= body_off {
            return Err(Error::BadOffset);
        }
        let (n, _end) = match parse_branch(buf, child_off, skipped) {
            Ok(v) => v,
            Err(e) => {
                return Err(e);
            },
        };
        Ok((n, after))
    } else if tag == 1 {
        if payload > blen as u64 {
            return Err(Error::TooLarge);
        }
        let (items, end) = match parse_data(buf, after, payload as usize, skipped) {
            Ok(v) => v,
            Err(e) => {
                return Err(e);
            },
        };
        if end <= cur {
            return Err(Error::Truncated);
        }
        Ok((Node::Data(items), end))
    } else {
        Ok((Node::Ref(payload), after))
    }
}


/// Equal concatenations with equally long heads have equal parts.
proof fn lemma_cat_eq(a: Seq<u8>, s1: Seq<u8>, b: Seq<u8>, s2: Seq<u8>)
    requires
        a + s1 == b + s2,
        a.len() == b.len(),
    ensures
        a == b,
        s1 == s2,
{
    assert forall|k: int| 0 <= k < a.len() implies a[k] == b[k] by {
        assert((a + s1)[k] == a[k]);
        assert((b + s2)[k] == b[k]);
    }
    assert(a =~= b);
    assert((a + s1).len() == a.len() + s1.len());
    assert((b + s2).len() == b.len() + s2.len());
    assert((a + s1).len() == (b + s2).len());
    assert(s1.len() == s2.len());
    assert forall|k: int| 0 <= k < s1.len() implies s1[k] == s2[k] by {
        assert((a + s1)[a.len() + k] == s1[k]);
        assert((b + s2)[b.len() + k] == s2[k]);
    }
    assert(s1 =~= s2);
}

/// A variable-length integer is determined by any byte string it
/// prefixes.
proof fn lemma_varint_inj(x: nat, y: nat, s1: Seq<u8>, s2: Seq<u8>)
    requires
        varint_bytes(x) + s1 == varint_bytes(y) + s2,
    ensures
        x == y,
        s1 == s2,
    decreases x,
{
    let hx = (varint_bytes(x) + s1)[0];
    assert(hx == varint_bytes(x)[0]);
    assert(hx == varint_bytes(y)[0]);
    if x < 128 && y < 128 {
        assert(varint_bytes(x) == seq![x as u8] && varint_bytes(y) == seq![y as u8]);
        lemma_cat_eq(varint_bytes(x), s1, varint_bytes(y), s2);
        assert(varint_bytes(x)[0] == x as u8 && varint_bytes(y)[0] == y as u8);
    } else if x >= 128 && y >= 128 {
        assert(varint_bytes(x)[0] == (128 + x % 128) as u8);
        assert(varint_bytes(y)[0] == (128 + y % 128) as u8);
        assert(x % 128 == y % 128);
        assert((varint_bytes(x) + s1).drop_first() =~= varint_bytes(x / 128) + s1);
        assert((varint_bytes(y) + s2).drop_first() =~= varint_bytes(y / 128) + s2);
        lemma_varint_inj(x / 128, y / 128, s1, s2);
        vstd::arithmetic::div_mod::lemma_fundamental_div_mod(x as int, 128);
        vstd::arithmetic::div_mod::lemma_fundamental_div_mod(y as int, 128);
    } else {
        if x < 128 {
            assert(varint_bytes(x)[0] == x as u8);
            assert(varint_bytes(y)[0] == (128 + y % 128) as u8);
            assert(false);
        } else {
            assert(varint_bytes(y)[0] == y as u8);
            assert(varint_bytes(x)[0] == (128 + x % 128) as u8);
            assert(false);
        }
    }
}

/// A fixed-width integer is determined by any byte string it prefixes.
proof fn lemma_le_inj(x: nat, y: nat, n: nat, s1: Seq<u8>, s2: Seq<u8>)
    requires
        x < pow256(n),
        y < pow256(n),
        le_bytes(x, n) + s1 == le_bytes(y, n) + s2,
    ensures
        x == y,
        s1 == s2,
{
    lemma_le_roundtrip(x, n);
    lemma_le_roundtrip(y, n);
    lemma_cat_eq(le_bytes(x, n), s1, le_bytes(y, n), s2);
}

/// A scalar is determined by any byte string it prefixes.
proof fn lemma_scalar_inj(a: i64, b: i64, s1: Seq<u8>, s2: Seq<u8>)
    requires
        enc_scalar(a) + s1 == enc_scalar(b) + s2,
    ensures
        a == b,
        s1 == s2,
{
    lemma_pow64();
    lemma_le_inj(i64u(a), i64u(b), 8, s1, s2);
}

/// An item record is determined by any byte string it prefixes.
proof fn lemma_item_inj(a: Item, b: Item, s1: Seq<u8>, s2: Seq<u8>)
    requires
        enc_item(a) + s1 == enc_item(b) + s2,
    ensures
        a == b,
        s1 == s2,
{
    lemma_pow64();
    let ta = enc_coord(a.point.0) + (enc_coord(a.point.1) + (le_bytes(a.value as nat, 4)
        + (le_bytes(a.loc.0 as nat, 8) + (le_bytes(a.loc.1 as nat, 4) + s1))));
    let tb = enc_coord(b.point.0) + (enc_coord(b.point.1) + (le_bytes(b.value as nat, 4)
        + (le_bytes(b.loc.0 as nat, 8) + (le_bytes(b.loc.1 as nat, 4) + s2))));
    assert(seq![shape_byte(a)] + ta =~= enc_item(a) + s1);
    assert(seq![shape_byte(b)] + tb =~= enc_item(b) + s2);
    lemma_cat_eq(seq![shape_byte(a)], ta, seq![shape_byte(b)], tb);
    assert(shape_byte(a) == shape_byte(b)) by {
        assert(seq![shape_byte(a)][0] == seq![shape_byte(b)][0]);
    }
    assert(a.point.0 is Interval == b.point.0 is Interval);
    assert(a.point.1 is Interval == b.point.1 is Interval);
    let ra = enc_coord(a.point.1) + (le_bytes(a.value as nat, 4) + (le_bytes(a.loc.0 as nat, 8)
        + (le_bytes(a.loc.1 as nat, 4) + s1)));
    let rb = enc_coord(b.point.1) + (le_bytes(b.value as nat, 4) + (le_bytes(b.loc.0 as nat, 8)
        + (le_bytes(b.loc.1 as nat, 4) + s2)));
    lemma_coord_inj(a.point.0, b.point.0, ra, rb);
    let ua = le_bytes(a.value as nat, 4) + (le_bytes(a.loc.0 as nat, 8) + (le_bytes(
        a.loc.1 as nat,
        4,
    ) + s1));
    let ub = le_bytes(b.value as nat, 4) + (le_bytes(b.loc.0 as nat, 8) + (le_bytes(
        b.loc.1 as nat,
        4,
    ) + s2));
    lemma_coord_inj(a.point.1, b.point.1, ua, ub);
    lemma_le_inj(
        a.value as nat,
        b.value as nat,
        4,
        le_bytes(a.loc.0 as nat, 8) + (le_bytes(a.loc.1 as nat, 4) + s1),
        le_bytes(b.loc.0 as nat, 8) + (le_bytes(b.loc.1 as nat, 4) + s2),
    );
    lemma_le_inj(
        a.loc.0 as nat,
        b.loc.0 as nat,
        8,
        le_bytes(a.loc.1 as nat, 4) + s1,
        le_bytes(b.loc.1 as nat, 4) + s2,
    );
    lemma_le_inj(a.loc.1 as nat, b.loc.1 as nat, 4, s1, s2);
}

/// A coordinate of a known variant is determined by what it prefixes.
proof fn lemma_coord_inj(a: Coord, b: Coord, s1: Seq<u8>, s2: Seq<u8>)
    requires
        a is Interval == b is Interval,
        enc_coord(a) + s1 == enc_coord(b) + s2,
    ensures
        a == b,
        s1 == s2,
{
    match (a, b) {
        (Coord::Scalar(x), Coord::Scalar(y)) => {
            lemma_scalar_inj(x, y, s1, s2);
        },
        (Coord::Interval(x0, x1), Coord::Interval(y0, y1)) => {
            assert(enc_scalar(x0) + (enc_scalar(x1) + s1) =~= enc_coord(a) + s1);
            assert(enc_scalar(y0) + (enc_scalar(y1) + s2) =~= enc_coord(b) + s2);
            lemma_scalar_inj(x0, y0, enc_scalar(x1) + s1, enc_scalar(y1) + s2);
            lemma_scalar_inj(x1, y1, s1, s2);
        },
        _ => {},
    }
}

/// Equally many item records are determined by what they prefix.
proof fn lemma_items_inj(l1: Seq<Item>, l2: Seq<Item>, s1: Seq<u8>, s2: Seq<u8>)
    requires
        l1.len() == l2.len(),
        enc_items(l1) + s1 == enc_items(l2) + s2,
    ensures
        l1 == l2,
        s1 == s2,
    decreases l1.len(),
{
    if l1.len() == 0 {
        assert(enc_items(l1) =~= Seq::<u8>::empty());
        assert(enc_items(l2) =~= Seq::<u8>::empty());
        assert(s1 =~= enc_items(l1) + s1);
        assert(s2 =~= enc_items(l2) + s2);
        assert(l1 =~= l2);
    } else {
        assert(enc_item(l1[0]) + (enc_items(l1.drop_first()) + s1) =~= enc_items(l1) + s1);
        assert(enc_item(l2[0]) + (enc_items(l2.drop_first()) + s2) =~= enc_items(l2) + s2);
        lemma_item_inj(l1[0], l2[0], enc_items(l1.drop_first()) + s1, enc_items(l2.drop_first())
            + s2);
        lemma_items_inj(l1.drop_first(), l2.drop_first(), s1, s2);
        assert(l1[0] == l2[0]);
        assert forall|k: int| 0 <= k < l1.len() implies l1[k] == l2[k] by {
            if k > 0 {
                assert(l1.drop_first()[k - 1] == l2.drop_first()[k - 1]);
            }
        }
        assert(l1 =~= l2);
    }
}

/// A leaf body of a known item count is determined by what it prefixes.
proof fn lemma_data_inj(l1: Seq<Item>, l2: Seq<Item>, s1: Seq<u8>, s2: Seq<u8>)
    requires
        l1.len() == l2.len(),
        enc_data(l1) + s1 == enc_data(l2) + s2,
    ensures
        l1 == l2,
        s1 == s2,
{
    let z = ((l1.len() + 7) / 8) as nat;
    assert(zeros(z) + (enc_items(l1) + s1) =~= enc_data(l1) + s1);
    assert(zeros(z) + (enc_items(l2) + s2) =~= enc_data(l2) + s2);
    lemma_cat_eq(zeros(z), enc_items(l1) + s1, zeros(z), enc_items(l2) + s2);
    lemma_items_inj(l1, l2, s1, s2);
}

/// Unambiguity of the blob format: two well-shaped trees whose
/// payloads fit their descriptors and whose blobs are equal are the
/// same tree.  Together with `to_bytes`, which writes exactly
/// `enc_tree`, a blob this codec wrote determines the tree it came
/// from.
#[verifier::rlimit(100)]
pub proof fn lemma_codec_unambiguous(t1: Tree, t2: Tree)
    requires
        wf_shape(t1.root),
        wf_shape(t2.root),
        t1.root matches Node::Data(i) ==> i@.len() <= max_payload(),
        t2.root matches Node::Data(i) ==> i@.len() <= max_payload(),
        t1.root matches Node::Ref(r) ==> (r as nat) <= max_payload(),
        t2.root matches Node::Ref(r) ==> (r as nat) <= max_payload(),
        t1.root matches Node::Branch(b) ==> (fits_branch(
            b,
            varint_bytes(t1.count as nat).len() + 36,
        ) && varint_bytes(t1.count as nat).len() + 36 <= max_payload()),
        t2.root matches Node::Branch(b) ==> (fits_branch(
            b,
            varint_bytes(t2.count as nat).len() + 36,
        ) && varint_bytes(t2.count as nat).len() + 36 <= max_payload()),
        enc_tree(t1) == enc_tree(t2),
    ensures
        t1.count == t2.count,
        t1.bounds == t2.bounds,
        node_eq(t1.root, t2.root),
{
    let h1 = varint_bytes(t1.count as nat) + enc_scalar(t1.bounds.0) + enc_scalar(t1.bounds.1)
        + enc_scalar(t1.bounds.2) + enc_scalar(t1.bounds.3);
    let h2 = varint_bytes(t2.count as nat) + enc_scalar(t2.bounds.0) + enc_scalar(t2.bounds.1)
        + enc_scalar(t2.bounds.2) + enc_scalar(t2.bounds.3);
    let r1 = enc_root(t1.root, h1.len());
    let r2 = enc_root(t2.root, h2.len());
    assert(varint_bytes(t1.count as nat) + (enc_scalar(t1.bounds.0) + (enc_scalar(t1.bounds.1) + (
    enc_scalar(t1.bounds.2) + (enc_scalar(t1.bounds.3) + r1)))) =~= h1 + r1);
    assert(varint_bytes(t2.count as nat) + (enc_scalar(t2.bounds.0) + (enc_scalar(t2.bounds.1) + (
    enc_scalar(t2.bounds.2) + (enc_scalar(t2.bounds.3) + r2)))) =~= h2 + r2);
    assert(h1 + r1 == h2 + r2);
    lemma_varint_inj(
        t1.count as nat,
        t2.count as nat,
        enc_scalar(t1.bounds.0) + (enc_scalar(t1.bounds.1) + (enc_scalar(t1.bounds.2) + (
        enc_scalar(t1.bounds.3) + r1))),
        enc_scalar(t2.bounds.0) + (enc_scalar(t2.bounds.1) + (enc_scalar(t2.bounds.2) + (
        enc_scalar(t2.bounds.3) + r2))),
    );
    lemma_scalar_inj(
        t1.bounds.0,
        t2.bounds.0,
        enc_scalar(t1.bounds.1) + (enc_scalar(t1.bounds.2) + (enc_scalar(t1.bounds.3) + r1)),
        enc_scalar(t2.bounds.1) + (enc_scalar(t2.bounds.2) + (enc_scalar(t2.bounds.3) + r2)),
    );
    lemma_scalar_inj(
        t1.bounds.1,
        t2.bounds.1,
        enc_scalar(t1.bounds.2) + (enc_scalar(t1.bounds.3) + r1),
        enc_scalar(t2.bounds.2) + (enc_scalar(t2.bounds.3) + r2),
    );
    lemma_scalar_inj(
        t1.bounds.2,
        t2.bounds.2,
        enc_scalar(t1.bounds.3) + r1,
        enc_scalar(t2.bounds.3) + r2,
    );
    lemma_scalar_inj(t1.bounds.3, t2.bounds.3, r1, r2);
    lemma_pow64();
    assert(h1.len() == h2.len()) by {
        lemma_le_bytes_len(i64u(t1.bounds.0), 8);
        lemma_le_bytes_len(i64u(t1.bounds.1), 8);
        lemma_le_bytes_len(i64u(t1.bounds.2), 8);
        lemma_le_bytes_len(i64u(t1.bounds.3), 8);
        lemma_le_bytes_len(i64u(t2.bounds.0), 8);
        lemma_le_bytes_len(i64u(t2.bounds.1), 8);
        lemma_le_bytes_len(i64u(t2.bounds.2), 8);
        lemma_le_bytes_len(i64u(t2.bounds.3), 8);
    }
    let (tag1, p1, tail1) = match t1.root {
        Node::Data(i) => (1nat, i@.len(), enc_data(i@)),
        Node::Ref(r) => (2nat, r as nat, Seq::<u8>::empty()),
        Node::Branch(b) => (0nat, h1.len() + 4, enc_branch(b, h1.len() + 4)),
    };
    let (tag2, p2, tail2) = match t2.root {
        Node::Data(i) => (1nat, i@.len(), enc_data(i@)),
        Node::Ref(r) => (2nat, r as nat, Seq::<u8>::empty()),
        Node::Branch(b) => (0nat, h2.len() + 4, enc_branch(b, h2.len() + 4)),
    };
    assert(h1.len() == varint_bytes(t1.count as nat).len() + 32) by {
        lemma_le_bytes_len(i64u(t1.bounds.0), 8);
        lemma_le_bytes_len(i64u(t1.bounds.1), 8);
        lemma_le_bytes_len(i64u(t1.bounds.2), 8);
        lemma_le_bytes_len(i64u(t1.bounds.3), 8);
    }
    assert(h2.len() == varint_bytes(t2.count as nat).len() + 32) by {
        lemma_le_bytes_len(i64u(t2.bounds.0), 8);
        lemma_le_bytes_len(i64u(t2.bounds.1), 8);
        lemma_le_bytes_len(i64u(t2.bounds.2), 8);
        lemma_le_bytes_len(i64u(t2.bounds.3), 8);
    }
    assert(p1 <= max_payload() && p2 <= max_payload());
    assert(le_bytes(3 * p1 + tag1, 4) + tail1 =~= r1);
    assert(le_bytes(3 * p2 + tag2, 4) + tail2 =~= r2);
    lemma_le_bytes_len(3 * p1 + tag1, 4);
    lemma_le_bytes_len(3 * p2 + tag2, 4);
    lemma_cat_eq(le_bytes(3 * p1 + tag1, 4), tail1, le_bytes(3 * p2 + tag2, 4), tail2);
    lemma_le_roundtrip(3 * p1 + tag1, 4);
    lemma_le_roundtrip(3 * p2 + tag2, 4);
    lemma_desc_unique(tag1, p1, tag2, p2);
    match (t1.root, t2.root) {
        (Node::Data(i1), Node::Data(i2)) => {
            lemma_data_inj(i1@, i2@, Seq::<u8>::empty(), Seq::<u8>::empty());
        },
        (Node::Ref(a), Node::Ref(b)) => {
            assert(a == b);
        },
        (Node::Branch(b1), Node::Branch(b2)) => {
            assert(tail1 == tail2);
            assert(h1.len() + 4 == varint_bytes(t1.count as nat).len() + 36);
            assert(h2.len() + 4 == varint_bytes(t2.count as nat).len() + 36);
            assert(h1.len() == h2.len());
            assert(fits_branch(b1, h1.len() + 4));
            assert(fits_branch(b2, h1.len() + 4));
            assert(enc_branch(b1, h1.len() + 4) + Seq::<u8>::empty() =~= tail1);
            assert(enc_branch(b2, h1.len() + 4) + Seq::<u8>::empty() =~= tail2);
            lemma_branch_inj(b1, b2, h1.len() + 4, Seq::<u8>::empty(), Seq::<u8>::empty());
        },
        _ => {
            assert(false);
        },
    }
}



/// Pairwise shape of two child entries: same kind, with equal inline
/// content for leaves and references.
pub open spec fn entry_like(a: Node, b: Node) -> bool {
    match (a, b) {
        (Node::Data(x), Node::Data(y)) => x@ == y@,
        (Node::Ref(r), Node::Ref(s)) => r == s,
        (Node::Branch(_), Node::Branch(_)) => true,
        _ => false,
    }
}

/// Every descriptor payload of these entries fits its 32-bit word.
pub open spec fn fits_entries(cs: Seq<Node>, tp: nat) -> bool
    decreases cs,
{
    cs.len() == 0 || (match cs[0] {
        Node::Data(i) => i@.len() <= max_payload() && fits_entries(cs.drop_first(), tp),
        Node::Ref(r) => (r as nat) <= max_payload() && fits_entries(cs.drop_first(), tp),
        Node::Branch(_) => tp <= max_payload() && fits_entries(
            cs.drop_first(),
            tp + subtree_len(cs[0]),
        ),
    })
}

/// Every descriptor payload in these subtrees fits its 32-bit word.
pub open spec fn fits_tails(cs: Seq<Node>, tp: nat) -> bool
    decreases cs,
{
    cs.len() == 0 || (match cs[0] {
        Node::Branch(b) => fits_branch(b, tp) && fits_tails(
            cs.drop_first(),
            tp + subtree_len(cs[0]),
        ),
        _ => fits_tails(cs.drop_first(), tp),
    })
}

/// Every descriptor payload under this branch fits its 32-bit word.
pub open spec fn fits_branch(b: Branch, pos: nat) -> bool
    decreases b,
{
    let t0 = pos + own_len(b);
    &&& fits_entries(b.intersections@, t0)
    &&& fits_entries(b.nodes@, t0 + kids_len(b.intersections@))
    &&& fits_tails(b.intersections@, t0)
    &&& fits_tails(b.nodes@, t0 + kids_len(b.intersections@))
}

/// Equally many pivots are determined by what they prefix.
proof fn lemma_scalars_inj(p1: Seq<i64>, p2: Seq<i64>, s1: Seq<u8>, s2: Seq<u8>)
    requires
        p1.len() == p2.len(),
        enc_scalars(p1) + s1 == enc_scalars(p2) + s2,
    ensures
        p1 == p2,
        s1 == s2,
    decreases p1.len(),
{
    if p1.len() == 0 {
        assert(enc_scalars(p1) =~= Seq::<u8>::empty());
        assert(enc_scalars(p2) =~= Seq::<u8>::empty());
        assert(s1 =~= enc_scalars(p1) + s1);
        assert(s2 =~= enc_scalars(p2) + s2);
        assert(p1 =~= p2);
    } else {
        assert(enc_scalar(p1[0]) + (enc_scalars(p1.drop_first()) + s1) =~= enc_scalars(p1) + s1);
        assert(enc_scalar(p2[0]) + (enc_scalars(p2.drop_first()) + s2) =~= enc_scalars(p2) + s2);
        lemma_scalar_inj(p1[0], p2[0], enc_scalars(p1.drop_first()) + s1, enc_scalars(
            p2.drop_first(),
        ) + s2);
        lemma_scalars_inj(p1.drop_first(), p2.drop_first(), s1, s2);
        assert forall|k: int| 0 <= k < p1.len() implies p1[k] == p2[k] by {
            if k > 0 {
                assert(p1.drop_first()[k - 1] == p2.drop_first()[k - 1]);
            }
        }
        assert(p1 =~= p2);
    }
}

/// A descriptor word determines its tag and payload.
proof fn lemma_desc_unique(t1: nat, p1: nat, t2: nat, p2: nat)
    requires
        t1 <= 2,
        t2 <= 2,
        3 * p1 + t1 == 3 * p2 + t2,
    ensures
        t1 == t2,
        p1 == p2,
{
    vstd::arithmetic::div_mod::lemma_fundamental_div_mod_converse(
        (3 * p1 + t1) as int,
        3,
        p1 as int,
        t1 as int,
    );
    vstd::arithmetic::div_mod::lemma_fundamental_div_mod_converse(
        (3 * p2 + t2) as int,
        3,
        p2 as int,
        t2 as int,
    );
}

/// The entries of equally many children are determined by what they
/// prefix: kinds, inline leaves, references and the absolute positions
/// of branch children all match.
#[verifier::rlimit(100)]
proof fn lemma_entries_inj(
    cs1: Seq<Node>,
    cs2: Seq<Node>,
    tp1: nat,
    tp2: nat,
    s1: Seq<u8>,
    s2: Seq<u8>,
)
    requires
        cs1.len() == cs2.len(),
        fits_entries(cs1, tp1),
        fits_entries(cs2, tp2),
        enc_entries(cs1, tp1) + s1 == enc_entries(cs2, tp2) + s2,
    ensures
        s1 == s2,
        forall|i: int| 0 <= i < cs1.len() ==> entry_like(#[trigger] cs1[i], cs2[i]),
        forall|i: int|
            0 <= i < cs1.len() && (#[trigger] cs1[i]) is Branch ==> tp1 + kids_len(cs1.take(i))
                == tp2 + kids_len(cs2.take(i)),
    decreases cs1,
{
    lemma_pow64();
    if cs1.len() == 0 {
        assert(enc_entries(cs1, tp1) =~= Seq::<u8>::empty());
        assert(enc_entries(cs2, tp2) =~= Seq::<u8>::empty());
        assert(s1 =~= enc_entries(cs1, tp1) + s1);
        assert(s2 =~= enc_entries(cs2, tp2) + s2);
    } else {
        let (v1, body1, ntp1) = match cs1[0] {
            Node::Data(i) => (3 * i@.len() + 1, enc_data(i@), tp1),
            Node::Ref(r) => (3 * (r as nat) + 2, Seq::<u8>::empty(), tp1),
            Node::Branch(_) => (3 * tp1 + 0, Seq::<u8>::empty(), tp1 + subtree_len(cs1[0])),
        };
        let (v2, body2, ntp2) = match cs2[0] {
            Node::Data(i) => (3 * i@.len() + 1, enc_data(i@), tp2),
            Node::Ref(r) => (3 * (r as nat) + 2, Seq::<u8>::empty(), tp2),
            Node::Branch(_) => (3 * tp2 + 0, Seq::<u8>::empty(), tp2 + subtree_len(cs2[0])),
        };
        let rest1 = enc_entries(cs1.drop_first(), ntp1);
        let rest2 = enc_entries(cs2.drop_first(), ntp2);
        assert(le_bytes(v1, 4) + (body1 + (rest1 + s1)) =~= enc_entries(cs1, tp1) + s1);
        assert(le_bytes(v2, 4) + (body2 + (rest2 + s2)) =~= enc_entries(cs2, tp2) + s2);
        lemma_le_inj(v1, v2, 4, body1 + (rest1 + s1), body2 + (rest2 + s2));
        let t1 = match cs1[0] {
            Node::Data(_) => 1nat,
            Node::Ref(_) => 2,
            Node::Branch(_) => 0,
        };
        let p1 = match cs1[0] {
            Node::Data(i) => i@.len(),
            Node::Ref(r) => r as nat,
            Node::Branch(_) => tp1,
        };
        let t2 = match cs2[0] {
            Node::Data(_) => 1nat,
            Node::Ref(_) => 2,
            Node::Branch(_) => 0,
        };
        let p2 = match cs2[0] {
            Node::Data(i) => i@.len(),
            Node::Ref(r) => r as nat,
            Node::Branch(_) => tp2,
        };
        lemma_desc_unique(t1, p1, t2, p2);
        match (cs1[0], cs2[0]) {
            (Node::Data(i1), Node::Data(i2)) => {
                lemma_data_inj(i1@, i2@, rest1 + s1, rest2 + s2);
                assert(entry_like(cs1[0], cs2[0]));
                assert(rest1 + s1 == rest2 + s2);
                assert(cs1[0] is Branch ==> tp1 == tp2);
            },
            (Node::Ref(_), Node::Ref(_)) => {
                assert(body1 + (rest1 + s1) =~= rest1 + s1);
                assert(body2 + (rest2 + s2) =~= rest2 + s2);
                assert(entry_like(cs1[0], cs2[0]));
                assert(rest1 + s1 == rest2 + s2);
                assert(cs1[0] is Branch ==> tp1 == tp2);
            },
            (Node::Branch(_), Node::Branch(_)) => {
                assert(body1 + (rest1 + s1) =~= rest1 + s1);
                assert(body2 + (rest2 + s2) =~= rest2 + s2);
                assert(tp1 == tp2);
                assert(entry_like(cs1[0], cs2[0]));
                assert(rest1 + s1 == rest2 + s2);
            },
            _ => {
                assert(false);
            },
        }
        assert(rest1 + s1 == rest2 + s2);
        assert(entry_like(cs1[0], cs2[0]));
        assert(cs1[0] is Branch ==> tp1 == tp2);
        lemma_entries_inj(cs1.drop_first(), cs2.drop_first(), ntp1, ntp2, s1, s2);
        lemma_entries_inj_assemble(cs1, cs2, tp1, tp2, ntp1, ntp2);
    }
}

/// Lift the tail's pairwise facts over the head entry.
proof fn lemma_entries_inj_assemble(
    cs1: Seq<Node>,
    cs2: Seq<Node>,
    tp1: nat,
    tp2: nat,
    ntp1: nat,
    ntp2: nat,
)
    requires
        cs1.len() == cs2.len(),
        cs1.len() >= 1,
        entry_like(cs1[0], cs2[0]),
        cs1[0] is Branch ==> tp1 == tp2,
        ntp1 == tp1 + subtree_len(cs1[0]),
        ntp2 == tp2 + subtree_len(cs2[0]),
        forall|i: int|
            0 <= i < cs1.drop_first().len() ==> entry_like(
                #[trigger] cs1.drop_first()[i],
                cs2.drop_first()[i],
            ),
        forall|i: int|
            0 <= i < cs1.drop_first().len() && (#[trigger] cs1.drop_first()[i]) is Branch
                ==> ntp1 + kids_len(cs1.drop_first().take(i)) == ntp2 + kids_len(
                cs2.drop_first().take(i),
            ),
    ensures
        forall|i: int| 0 <= i < cs1.len() ==> entry_like(#[trigger] cs1[i], cs2[i]),
        forall|i: int|
            0 <= i < cs1.len() && (#[trigger] cs1[i]) is Branch ==> tp1 + kids_len(cs1.take(i))
                == tp2 + kids_len(cs2.take(i)),
{
    assert forall|i: int| 0 <= i < cs1.len() implies entry_like(#[trigger] cs1[i], cs2[i]) by {
        if i > 0 {
            assert(entry_like(cs1.drop_first()[i - 1], cs2.drop_first()[i - 1]));
        }
    }
    assert forall|i: int|
        0 <= i < cs1.len() && (#[trigger] cs1[i]) is Branch implies tp1 + kids_len(cs1.take(i))
        == tp2 + kids_len(cs2.take(i)) by {
        if i == 0 {
            assert(cs1.take(0) =~= Seq::<Node>::empty());
            assert(cs2.take(0) =~= Seq::<Node>::empty());
        } else {
            assert(cs1.drop_first()[i - 1] is Branch);
            assert(ntp1 + kids_len(cs1.drop_first().take(i - 1)) == ntp2 + kids_len(
                cs2.drop_first().take(i - 1),
            ));
            assert(cs1.take(i) =~= seq![cs1[0]] + cs1.drop_first().take(i - 1));
            assert(cs2.take(i) =~= seq![cs2[0]] + cs2.drop_first().take(i - 1));
            lemma_len_cat(seq![cs1[0]], cs1.drop_first().take(i - 1));
            lemma_len_cat(seq![cs2[0]], cs2.drop_first().take(i - 1));
            let single1 = seq![cs1[0]];
            let single2 = seq![cs2[0]];
            assert(single1.drop_first() =~= Seq::<Node>::empty());
            assert(single2.drop_first() =~= Seq::<Node>::empty());
            assert(kids_len(single1.drop_first()) == 0);
            assert(kids_len(single2.drop_first()) == 0);
            assert(single1[0] == cs1[0] && single2[0] == cs2[0]);
            assert(kids_len(single1) == subtree_len(cs1[0]) + kids_len(single1.drop_first()));
            assert(kids_len(single2) == subtree_len(cs2[0]) + kids_len(single2.drop_first()));
            assert(cs1.take(i) =~= single1 + cs1.drop_first().take(i - 1));
            assert(cs2.take(i) =~= single2 + cs2.drop_first().take(i - 1));
            lemma_len_cat(single1, cs1.drop_first().take(i - 1));
            lemma_len_cat(single2, cs2.drop_first().take(i - 1));
            match (cs1[0], cs2[0]) {
                (Node::Branch(_), Node::Branch(_)) => {},
                _ => {
                    assert(subtree_len(cs1[0]) == 0 && subtree_len(cs2[0]) == 0);
                },
            }
        }
    }
}


/// The subtrees behind equally shaped entries are determined by what
/// they prefix.
#[verifier::rlimit(100)]
proof fn lemma_tails_inj(
    cs1: Seq<Node>,
    cs2: Seq<Node>,
    tp1: nat,
    tp2: nat,
    s1: Seq<u8>,
    s2: Seq<u8>,
)
    requires
        cs1.len() == cs2.len(),
        forall|i: int| 0 <= i < cs1.len() ==> entry_like(#[trigger] cs1[i], cs2[i]),
        forall|i: int|
            0 <= i < cs1.len() && (#[trigger] cs1[i]) is Branch ==> tp1 + kids_len(cs1.take(i))
                == tp2 + kids_len(cs2.take(i)),
        forall|i: int| 0 <= i < cs1.len() ==> wf_shape(#[trigger] cs1[i]),
        forall|i: int| 0 <= i < cs2.len() ==> wf_shape(#[trigger] cs2[i]),
        fits_tails(cs1, tp1),
        fits_tails(cs2, tp2),
        enc_tails(cs1, tp1) + s1 == enc_tails(cs2, tp2) + s2,
    ensures
        s1 == s2,
        forall|i: int| 0 <= i < cs1.len() ==> node_eq(#[trigger] cs1[i], cs2[i]),
    decreases cs1,
{
    if cs1.len() == 0 {
        assert(enc_tails(cs1, tp1) =~= Seq::<u8>::empty());
        assert(enc_tails(cs2, tp2) =~= Seq::<u8>::empty());
        assert(s1 =~= enc_tails(cs1, tp1) + s1);
        assert(s2 =~= enc_tails(cs2, tp2) + s2);
    } else {
        assert(entry_like(cs1[0], cs2[0]));
        let ntp1 = tp1 + subtree_len(cs1[0]);
        let ntp2 = tp2 + subtree_len(cs2[0]);
        let rest1 = enc_tails(cs1.drop_first(), ntp1);
        let rest2 = enc_tails(cs2.drop_first(), ntp2);
        match (cs1[0], cs2[0]) {
            (Node::Branch(hb1), Node::Branch(hb2)) => {
                assert(tp1 == tp2) by {
                    assert(cs1.take(0) =~= Seq::<Node>::empty());
                    assert(cs2.take(0) =~= Seq::<Node>::empty());
                    assert(kids_len(cs1.take(0)) == 0 && kids_len(cs2.take(0)) == 0);
                }
                assert(enc_branch(hb1, tp1) + (rest1 + s1) =~= enc_tails(cs1, tp1) + s1);
                assert(enc_branch(hb2, tp2) + (rest2 + s2) =~= enc_tails(cs2, tp2) + s2);
                lemma_branch_inj(hb1, hb2, tp1, rest1 + s1, rest2 + s2);
                assert(node_eq(cs1[0], cs2[0]));
            },
            (Node::Data(x), Node::Data(y)) => {
                assert(enc_tails(cs1, tp1) == rest1);
                assert(enc_tails(cs2, tp2) == rest2);
                assert(node_eq(cs1[0], cs2[0]));
            },
            (Node::Ref(r), Node::Ref(q)) => {
                assert(enc_tails(cs1, tp1) == rest1);
                assert(enc_tails(cs2, tp2) == rest2);
                assert(node_eq(cs1[0], cs2[0]));
            },
            _ => {
                assert(false);
            },
        }
        assert(rest1 + s1 == rest2 + s2);
        assert(node_eq(cs1[0], cs2[0]));
        assert forall|i: int| 0 <= i < cs1.drop_first().len() implies entry_like(
            #[trigger] cs1.drop_first()[i],
            cs2.drop_first()[i],
        ) && wf_shape(cs1.drop_first()[i]) && wf_shape(cs2.drop_first()[i]) by {
            assert(cs1.drop_first()[i] == cs1[i + 1]);
            assert(cs2.drop_first()[i] == cs2[i + 1]);
        }
        lemma_tails_pos_shift(cs1, cs2, tp1, tp2, ntp1, ntp2);
        lemma_tails_inj(cs1.drop_first(), cs2.drop_first(), ntp1, ntp2, s1, s2);
        assert forall|i: int| 0 <= i < cs1.len() implies node_eq(#[trigger] cs1[i], cs2[i]) by {
            if i > 0 {
                assert(node_eq(cs1.drop_first()[i - 1], cs2.drop_first()[i - 1]));
            }
        }
    }
}

/// Right-nested concatenation of seven byte strings equals the
/// left-nested one.
proof fn lemma_assoc7(
    a: Seq<u8>,
    b: Seq<u8>,
    c: Seq<u8>,
    d: Seq<u8>,
    e: Seq<u8>,
    f: Seq<u8>,
    g: Seq<u8>,
)
    ensures
        a + (b + (c + (d + (e + (f + g))))) == a + b + c + d + e + f + g,
{
    assert(a + (b + (c + (d + (e + (f + g))))) =~= a + b + c + d + e + f + g);
}

/// The pivot vector of a branch body is determined by its bytes, and
/// the byte streams stay aligned after it.
#[verifier::rlimit(100)]
proof fn lemma_branch_pivots_inj(b1: Branch, b2: Branch, pos: nat, s1: Seq<u8>, s2: Seq<u8>)
    requires
        enc_branch(b1, pos) + s1 == enc_branch(b2, pos) + s2,
    ensures
        b1.pivots@ == b2.pivots@,
        ({
            let t0a = pos + own_len(b1);
            let t0b = pos + own_len(b2);
            enc_entries(b1.intersections@, t0a) + (enc_entries(
                b1.nodes@,
                t0a + kids_len(b1.intersections@),
            ) + (enc_tails(b1.intersections@, t0a) + (enc_tails(
                b1.nodes@,
                t0a + kids_len(b1.intersections@),
            ) + s1))) == enc_entries(b2.intersections@, t0b) + (enc_entries(
                b2.nodes@,
                t0b + kids_len(b2.intersections@),
            ) + (enc_tails(b2.intersections@, t0b) + (enc_tails(
                b2.nodes@,
                t0b + kids_len(b2.intersections@),
            ) + s2)))
        }),
{
    let t0a = pos + own_len(b1);
    let t0b = pos + own_len(b2);
    let e1a = enc_entries(b1.intersections@, t0a);
    let e2a = enc_entries(b1.nodes@, t0a + kids_len(b1.intersections@));
    let t1a = enc_tails(b1.intersections@, t0a);
    let t2a = enc_tails(b1.nodes@, t0a + kids_len(b1.intersections@));
    let e1b = enc_entries(b2.intersections@, t0b);
    let e2b = enc_entries(b2.nodes@, t0b + kids_len(b2.intersections@));
    let t1b = enc_tails(b2.intersections@, t0b);
    let t2b = enc_tails(b2.nodes@, t0b + kids_len(b2.intersections@));
    let va = varint_bytes(b1.pivots@.len());
    let vb = varint_bytes(b2.pivots@.len());
    let sa = enc_scalars(b1.pivots@);
    let sb = enc_scalars(b2.pivots@);
    lemma_assoc7(va, sa, e1a, e2a, t1a, t2a, s1);
    lemma_assoc7(vb, sb, e1b, e2b, t1b, t2b, s2);
    assert(enc_branch(b1, pos) + s1 == va + sa + e1a + e2a + t1a + t2a + s1) by {
        assert(enc_branch(b1, pos) =~= va + sa + e1a + e2a + t1a + t2a);
        assert(enc_branch(b1, pos) + s1 =~= va + sa + e1a + e2a + t1a + t2a + s1);
    }
    assert(enc_branch(b2, pos) + s2 == vb + sb + e1b + e2b + t1b + t2b + s2) by {
        assert(enc_branch(b2, pos) =~= vb + sb + e1b + e2b + t1b + t2b);
        assert(enc_branch(b2, pos) + s2 =~= vb + sb + e1b + e2b + t1b + t2b + s2);
    }
    lemma_varint_inj(
        b1.pivots@.len(),
        b2.pivots@.len(),
        sa + (e1a + (e2a + (t1a + (t2a + s1)))),
        sb + (e1b + (e2b + (t1b + (t2b + s2)))),
    );
    lemma_scalars_inj(
        b1.pivots@,
        b2.pivots@,
        e1a + (e2a + (t1a + (t2a + s1))),
        e1b + (e2b + (t1b + (t2b + s2))),
    );
}

/// A branch body is determined by its bytes and its own position: two
/// well-shaped branches encoded identically at the same position are
/// structurally the same.
#[verifier::rlimit(100)]
proof fn lemma_branch_inj(b1: Branch, b2: Branch, pos: nat, s1: Seq<u8>, s2: Seq<u8>)
    requires
        wf_shape(Node::Branch(b1)),
        wf_shape(Node::Branch(b2)),
        fits_branch(b1, pos),
        fits_branch(b2, pos),
        enc_branch(b1, pos) + s1 == enc_branch(b2, pos) + s2,
    ensures
        node_eq(Node::Branch(b1), Node::Branch(b2)),
        s1 == s2,
    decreases b1,
{
    let t0a = pos + own_len(b1);
    let t0b = pos + own_len(b2);
    let t1a = enc_tails(b1.intersections@, t0a);
    let t2a = enc_tails(b1.nodes@, t0a + kids_len(b1.intersections@));
    let t1b = enc_tails(b2.intersections@, t0b);
    let t2b = enc_tails(b2.nodes@, t0b + kids_len(b2.intersections@));
    lemma_branch_pivots_inj(b1, b2, pos, s1, s2);
    assert(b1.intersections@.len() == b2.intersections@.len());
    assert(b1.nodes@.len() == b2.nodes@.len());
    lemma_entries_inj(
        b1.intersections@,
        b2.intersections@,
        t0a,
        t0b,
        enc_entries(b1.nodes@, t0a + kids_len(b1.intersections@)) + (t1a + (t2a + s1)),
        enc_entries(b2.nodes@, t0b + kids_len(b2.intersections@)) + (t1b + (t2b + s2)),
    );
    lemma_entries_inj(
        b1.nodes@,
        b2.nodes@,
        t0a + kids_len(b1.intersections@),
        t0b + kids_len(b2.intersections@),
        t1a + (t2a + s1),
        t1b + (t2b + s2),
    );
    lemma_tails_inj(
        b1.intersections@,
        b2.intersections@,
        t0a,
        t0b,
        t2a + s1,
        t2b + s2,
    );
    lemma_tails_inj(
        b1.nodes@,
        b2.nodes@,
        t0a + kids_len(b1.intersections@),
        t0b + kids_len(b2.intersections@),
        s1,
        s2,
    );
    assert(node_eq(Node::Branch(b1), Node::Branch(b2)));
}

/// Shift the branch-position equations over a dropped head child.
proof fn lemma_tails_pos_shift(
    cs1: Seq<Node>,
    cs2: Seq<Node>,
    tp1: nat,
    tp2: nat,
    ntp1: nat,
    ntp2: nat,
)
    requires
        cs1.len() == cs2.len(),
        cs1.len() >= 1,
        ntp1 == tp1 + subtree_len(cs1[0]),
        ntp2 == tp2 + subtree_len(cs2[0]),
        forall|i: int|
            0 <= i < cs1.len() && (#[trigger] cs1[i]) is Branch ==> tp1 + kids_len(cs1.take(i))
                == tp2 + kids_len(cs2.take(i)),
    ensures
        forall|i: int|
            0 <= i < cs1.drop_first().len() && (#[trigger] cs1.drop_first()[i]) is Branch
                ==> ntp1 + kids_len(cs1.drop_first().take(i)) == ntp2 + kids_len(
                cs2.drop_first().take(i),
            ),
{
    assert forall|i: int|
        0 <= i < cs1.drop_first().len() && (#[trigger] cs1.drop_first()[i]) is Branch implies ntp1
        + kids_len(cs1.drop_first().take(i)) == ntp2 + kids_len(cs2.drop_first().take(i)) by {
        assert(cs1.drop_first()[i] == cs1[i + 1]);
        assert(cs1[i + 1] is Branch);
        assert(tp1 + kids_len(cs1.take(i + 1)) == tp2 + kids_len(cs2.take(i + 1)));
        let single1 = seq![cs1[0]];
        let single2 = seq![cs2[0]];
        assert(single1.drop_first() =~= Seq::<Node>::empty());
        assert(single2.drop_first() =~= Seq::<Node>::empty());
        assert(kids_len(single1.drop_first()) == 0 && kids_len(single2.drop_first()) == 0);
        assert(single1[0] == cs1[0] && single2[0] == cs2[0]);
        assert(kids_len(single1) == subtree_len(cs1[0]) + kids_len(single1.drop_first()));
        assert(kids_len(single2) == subtree_len(cs2[0]) + kids_len(single2.drop_first()));
        assert(cs1.take(i + 1) =~= single1 + cs1.drop_first().take(i));
        assert(cs2.take(i + 1) =~= single2 + cs2.drop_first().take(i));
        lemma_len_cat(single1, cs1.drop_first().take(i));
        lemma_len_cat(single2, cs2.drop_first().take(i));
    }
}


/// Item records take at least one byte each.
proof fn lemma_enc_items_ge(items: Seq<Item>)
    ensures
        enc_items(items).len() >= items.len(),
    decreases items.len(),
{
    if items.len() > 0 {
        lemma_enc_items_ge(items.drop_first());
    }
}

/// Byte-size and reference bounds imply the entry payload bounds.
proof fn lemma_fits_entries_from(cs: Seq<Node>, tp: nat)
    requires
        tp + kids_len(cs) <= max_payload(),
        entries_len(cs) <= max_payload(),
        forall|j: int| 0 <= j < nodes_refs(cs).len() ==> (nodes_refs(cs)[j] as nat) <= max_payload(),
    ensures
        fits_entries(cs, tp),
    decreases cs,
{
    if cs.len() > 0 {
        assert(nodes_refs(cs) == node_refs(cs[0]) + nodes_refs(cs.drop_first()));
        assert forall|j: int|
            0 <= j < nodes_refs(cs.drop_first()).len() implies (nodes_refs(cs.drop_first())[j]
            as nat) <= max_payload() by {
            assert(nodes_refs(cs)[node_refs(cs[0]).len() + j] == nodes_refs(cs.drop_first())[j]);
        }
        match cs[0] {
            Node::Data(i) => {
                lemma_enc_items_ge(i@);
                assert(entry_len(cs[0]) >= i@.len());
                lemma_fits_entries_from(cs.drop_first(), tp);
            },
            Node::Ref(r) => {
                assert(node_refs(cs[0]) == seq![r]);
                assert(nodes_refs(cs)[0] == r);
                lemma_fits_entries_from(cs.drop_first(), tp);
            },
            Node::Branch(_) => {
                lemma_fits_entries_from(cs.drop_first(), tp + subtree_len(cs[0]));
            },
        }
    }
}

/// Byte-size and reference bounds imply the tail payload bounds.
proof fn lemma_fits_tails_from(cs: Seq<Node>, tp: nat)
    requires
        tp + kids_len(cs) <= max_payload(),
        forall|j: int| 0 <= j < nodes_refs(cs).len() ==> (nodes_refs(cs)[j] as nat) <= max_payload(),
    ensures
        fits_tails(cs, tp),
    decreases cs, 1int,
{
    if cs.len() > 0 {
        assert(nodes_refs(cs) == node_refs(cs[0]) + nodes_refs(cs.drop_first()));
        assert forall|j: int|
            0 <= j < nodes_refs(cs.drop_first()).len() implies (nodes_refs(cs.drop_first())[j]
            as nat) <= max_payload() by {
            assert(nodes_refs(cs)[node_refs(cs[0]).len() + j] == nodes_refs(cs.drop_first())[j]);
        }
        match cs[0] {
            Node::Branch(b) => {
                assert forall|j: int|
                    0 <= j < node_refs(cs[0]).len() implies (node_refs(cs[0])[j] as nat)
                    <= max_payload() by {
                    assert(nodes_refs(cs)[j] == node_refs(cs[0])[j]);
                }
                lemma_fits_branch_from(b, tp);
                lemma_fits_tails_from(cs.drop_first(), tp + subtree_len(cs[0]));
            },
            _ => {
                lemma_fits_tails_from(cs.drop_first(), tp);
            },
        }
    }
}

/// Byte-size and reference bounds imply every payload bound of a
/// branch body at its position.
proof fn lemma_fits_branch_from(b: Branch, pos: nat)
    requires
        pos + subtree_len(Node::Branch(b)) <= max_payload(),
        forall|j: int|
            0 <= j < node_refs(Node::Branch(b)).len() ==> (node_refs(Node::Branch(b))[j] as nat)
                <= max_payload(),
    ensures
        fits_branch(b, pos),
    decreases b, 2int,
{
    let t0 = pos + own_len(b);
    lemma_own_le_subtree(b);
    assert(node_refs(Node::Branch(b)) == nodes_refs(b.intersections@) + nodes_refs(b.nodes@));
    assert forall|j: int|
        0 <= j < nodes_refs(b.intersections@).len() implies (nodes_refs(b.intersections@)[j]
        as nat) <= max_payload() by {
        assert(node_refs(Node::Branch(b))[j] == nodes_refs(b.intersections@)[j]);
    }
    assert forall|j: int|
        0 <= j < nodes_refs(b.nodes@).len() implies (nodes_refs(b.nodes@)[j] as nat)
        <= max_payload() by {
        assert(node_refs(Node::Branch(b))[nodes_refs(b.intersections@).len() + j] == nodes_refs(
            b.nodes@,
        )[j]);
    }
    lemma_fits_entries_from(b.intersections@, t0);
    lemma_fits_entries_from(b.nodes@, t0 + kids_len(b.intersections@));
    lemma_fits_tails_from(b.intersections@, t0);
    lemma_fits_tails_from(b.nodes@, t0 + kids_len(b.intersections@));
}

} // verus!
