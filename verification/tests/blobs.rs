use eyros::query::QueryStream;
use eyros::tree::{Item, Node, Tree};
use eyros::{Coord, Error, QueryPoll};

fn row(x: i64, y: i64, value: u32, loc: (u64, u32)) -> Item {
    Item { point: (Coord::Scalar(x), Coord::Scalar(y)), value, loc }
}

#[test]
fn codec_fidelity_on_a_thousand_points() {
    let mut rows = Vec::new();
    for i in 0..1000i64 {
        rows.push(row(i * 13 % 211, i * 31 % 193, i as u32, (0, i as u32)));
    }
    let tree = Tree::build(9, &rows);
    let blob = tree.to_bytes().unwrap();
    let back = Tree::from_bytes_exact(&blob).unwrap();
    assert_eq!(back.count, tree.count);
    assert_eq!(back.bounds, tree.bounds);
    let (mut a, ar) = tree.list();
    let (mut b, br) = back.list();
    a.sort_by_key(|it| (it.loc, it.value));
    b.sort_by_key(|it| (it.loc, it.value));
    assert_eq!(a, b);
    assert_eq!(ar, br);
}

#[test]
fn codec_round_trips_intervals_and_refs() {
    let rows = vec![
        Item {
            point: (Coord::Interval(-9, 4), Coord::Scalar(3)),
            value: 11,
            loc: (2, 0),
        },
        Item {
            point: (Coord::Scalar(8), Coord::Interval(0, 1)),
            value: 12,
            loc: (2, 1),
        },
    ];
    let tree = Tree::build(9, &rows);
    let blob = tree.to_bytes().unwrap();
    let back = Tree::from_bytes_exact(&blob).unwrap();
    let (mut a, _) = tree.list();
    let (mut b, _) = back.list();
    a.sort_by_key(|it| it.value);
    b.sort_by_key(|it| it.value);
    assert_eq!(a, b);

    let reftree = Tree { root: Node::Ref(42), bounds: (0, 0, 0, 0), count: 0 };
    let blob = reftree.to_bytes().unwrap();
    let back = Tree::from_bytes_exact(&blob).unwrap();
    match back.root {
        Node::Ref(r) => assert_eq!(r, 42),
        _ => panic!("expected a reference root"),
    }
}

#[test]
fn external_reference_resolution() {
    // An outer tree holding one unresolved reference; the referenced
    // tree holds the row (5, 5) -> 42.
    let inner = Tree::build(9, &vec![row(5, 5, 42, (0, 0))]);
    let inner_blob = inner.to_bytes().unwrap();
    let outer = Tree { root: Node::Ref(7), bounds: (5, 5, 5, 5), count: 0 };

    let mut q = QueryStream::new(((0, 0), (9, 9)), Vec::new());
    q.push_tree(&outer);
    let mut resolved = Vec::new();
    loop {
        match q.next() {
            QueryPoll::Hit(it) => resolved.push(it.value),
            QueryPoll::NeedTree(id) => {
                assert_eq!(id, 7);
                let fetched = Tree::from_bytes_exact(&inner_blob).unwrap();
                q.push_tree(&fetched);
            }
            QueryPoll::Done => break,
        }
    }
    assert_eq!(resolved, vec![42]);
}

#[test]
fn truncated_blobs_are_refused() {
    assert!(matches!(Tree::from_bytes(&Vec::new()), Err(Error::Truncated)));
    let tree = Tree::build(9, &vec![row(1, 2, 3, (0, 0))]);
    let mut blob = tree.to_bytes().unwrap();
    blob.truncate(blob.len() - 1);
    assert!(Tree::from_bytes(&blob).is_err());
}

#[test]
fn varint_overflow_is_refused() {
    // Ten continuation groups overflow a 64-bit value.
    let mut blob = vec![0xffu8; 9];
    blob.push(0x7f);
    assert!(matches!(Tree::from_bytes(&blob), Err(Error::VarintOverflow)));
    // A continuation byte with nothing after it is truncated.
    assert!(matches!(
        Tree::from_bytes(&vec![0x80u8]),
        Err(Error::Truncated)
    ));
    // A zero-valued continuation tail is not the canonical encoding.
    assert!(matches!(
        Tree::from_bytes(&vec![0x80u8, 0x00u8]),
        Err(Error::Malformed)
    ));
}

#[test]
fn bad_branch_offset_is_refused() {
    // Count 0, four zero scalars, then a branch descriptor whose body
    // offset points at the blob's start.
    let mut blob = vec![0u8];
    blob.extend(std::iter::repeat(0u8).take(32));
    blob.extend(vec![0u8, 0, 0, 0]);
    assert!(matches!(Tree::from_bytes(&blob), Err(Error::BadOffset)));
}

#[test]
fn oversized_reference_is_refused() {
    let tree = Tree { root: Node::Ref(u64::MAX), bounds: (0, 0, 0, 0), count: 0 };
    assert!(matches!(tree.to_bytes(), Err(Error::TooLarge)));
}

#[test]
fn malformed_shape_byte_is_refused() {
    // Count 0, four zero scalars, a one-item inline leaf descriptor,
    // an all-live bitfield, then a shape byte naming a third axis.
    let mut blob = vec![0u8];
    blob.extend(std::iter::repeat(0u8).take(32));
    blob.extend(vec![4u8, 0, 0, 0]);
    blob.extend(vec![0u8, 7u8]);
    assert!(matches!(Tree::from_bytes(&blob), Err(Error::Malformed)));
}

#[test]
fn tombstoned_records_are_skipped_on_decode() {
    // A two-record leaf blob whose bitfield marks the second record
    // deleted: decoding reads past it and returns only the first.
    let tree = Tree::build(9, &vec![row(1, 1, 10, (0, 0)), row(2, 2, 20, (0, 1))]);
    let mut blob = tree.to_bytes().unwrap();
    // The leaf body starts after the varint count (one byte), four
    // scalars and the descriptor word; its first byte is the bitfield.
    let bf_pos = 1 + 32 + 4;
    assert_eq!(blob[bf_pos], 0);
    blob[bf_pos] = 0b10;
    let back = Tree::from_bytes(&blob).unwrap();
    let (items, _) = back.list();
    let values: Vec<u32> = items.iter().map(|it| it.value).collect();
    assert_eq!(values, vec![10]);
    // The byte-exact decoder refuses the tombstoned blob.
    assert!(matches!(Tree::from_bytes_exact(&blob), Err(Error::Malformed)));
}

#[test]
fn exact_decode_refuses_noncanonical_blobs() {
    let tree = Tree::build(9, &vec![row(3, 4, 5, (0, 0))]);
    let mut blob = tree.to_bytes().unwrap();
    // Flip a padding-free byte of the value field: the blob no longer
    // re-encodes to itself under the decoded tree.
    let n = blob.len();
    blob[n - 1] ^= 0xff;
    // Either the parse fails outright or the exactness check does; a
    // silently wrong tree is impossible.
    match Tree::from_bytes_exact(&blob) {
        Ok(t) => {
            let blob2 = t.to_bytes().unwrap();
            assert_eq!(blob2, blob);
        }
        Err(_) => {}
    }
}
