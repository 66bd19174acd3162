use eyros::query::QueryStream;
use eyros::tree::Item;
use eyros::{Coord, QueryPoll, Row, SetupFields, DB};

fn open_db() -> DB {
    DB::open_from_setup(SetupFields { branch_factor: 9 })
}

fn insert(x: i64, y: i64, value: u32) -> Row {
    Row::Insert((Coord::Scalar(x), Coord::Scalar(y)), value)
}

/// Drain a stream fully, skipping unresolved external references.
fn drain(q: &mut QueryStream) -> Vec<Item> {
    let mut hits = Vec::new();
    loop {
        match q.next() {
            QueryPoll::Hit(it) => hits.push(it),
            QueryPoll::NeedTree(_) => {}
            QueryPoll::Done => return hits,
        }
    }
}

fn drained_values(db: &DB, bbox: ((i64, i64), (i64, i64))) -> Vec<u32> {
    let mut q = db.query(&bbox);
    let mut values: Vec<u32> = drain(&mut q).iter().map(|it| it.value).collect();
    values.sort();
    values
}

#[test]
fn insert_then_query_all() {
    let mut db = open_db();
    let rows = vec![insert(0, 0, 1), insert(1, 1, 2), insert(-1, -1, 3)];
    db.batch(&rows).unwrap();
    assert_eq!(drained_values(&db, ((-2, -2), (2, 2))), vec![1, 2, 3]);
}

#[test]
fn interval_straddling_pivot() {
    let mut db = open_db();
    db.batch(&vec![Row::Insert(
        (Coord::Interval(-5, 5), Coord::Scalar(0)),
        10,
    )])
    .unwrap();
    db.batch(&vec![insert(10, 10, 20)]).unwrap();
    assert_eq!(drained_values(&db, ((-1, -1), (1, 1))), vec![10]);
}

#[test]
fn interval_containing_the_box_is_returned() {
    let mut db = open_db();
    db.batch(&vec![Row::Insert(
        (Coord::Interval(-10, 10), Coord::Interval(-10, 10)),
        7,
    )])
    .unwrap();
    assert_eq!(drained_values(&db, ((-1, -1), (1, 1))), vec![7]);
}

#[test]
fn interval_touching_the_boundary_is_returned() {
    let mut db = open_db();
    db.batch(&vec![Row::Insert(
        (Coord::Interval(10, 20), Coord::Scalar(0)),
        8,
    )])
    .unwrap();
    // The interval's lower endpoint equals the box's upper x bound.
    assert_eq!(drained_values(&db, ((0, 0), (10, 10))), vec![8]);
}

#[test]
fn empty_box_returns_nothing() {
    let mut db = open_db();
    // An interval spanning the inverted range must not match either.
    db.batch(&vec![
        insert(4, 4, 1),
        insert(5, 5, 2),
        Row::Insert((Coord::Interval(0, 10), Coord::Interval(0, 10)), 3),
    ])
    .unwrap();
    assert_eq!(drained_values(&db, ((5, 5), (3, 3))), Vec::<u32>::new());
    assert_eq!(drained_values(&db, ((0, 9), (10, 2))), Vec::<u32>::new());
}

#[test]
fn repeating_a_query_yields_the_same_results() {
    let mut db = open_db();
    let rows: Vec<Row> = (0..50).map(|i| insert(i, 50 - i, i as u32)).collect();
    db.batch(&rows).unwrap();
    let first = drained_values(&db, ((10, 0), (40, 50)));
    let second = drained_values(&db, ((10, 0), (40, 50)));
    assert!(!first.is_empty());
    assert_eq!(first, second);
}

#[test]
fn tombstone_elision() {
    let mut db = open_db();
    db.batch(&vec![insert(0, 0, 7)]).unwrap();
    let hits = {
        let mut q = db.query(&((0, 0), (0, 0)));
        drain(&mut q)
    };
    assert_eq!(hits.len(), 1);
    let loc = hits[0].loc;
    db.batch(&vec![Row::Delete(loc)]).unwrap();
    assert_eq!(drained_values(&db, ((0, 0), (0, 0))), Vec::<u32>::new());
}

#[test]
fn merge_cascade_leaves_popcount_trees() {
    let mut db = open_db();
    let mut value = 0u32;
    for _ in 0..10 {
        let mut rows = Vec::new();
        for _ in 0..64 {
            rows.push(insert((value % 97) as i64, (value % 89) as i64, value));
            value += 1;
        }
        db.batch(&rows).unwrap();
    }
    let live: usize = db.trees.iter().filter(|slot| slot.is_some()).count();
    // Ten batches leave slots for the set bits of ten: two trees.
    assert_eq!(live, 2);
    let total: usize = db
        .trees
        .iter()
        .filter_map(|slot| slot.as_ref().map(|t| t.count))
        .sum();
    assert_eq!(total, 640);
    assert_eq!(drained_values(&db, ((0, 0), (100, 100))).len(), 640);
}

#[test]
fn query_results_intersect_the_box() {
    let mut db = open_db();
    let rows: Vec<Row> = (0..80).map(|i| insert(i % 13, i % 11, i as u32)).collect();
    db.batch(&rows).unwrap();
    let bbox = ((2, 3), (7, 8));
    let mut q = db.query(&bbox);
    for it in drain(&mut q) {
        match it.point.0 {
            Coord::Scalar(x) => assert!(2 <= x && x <= 7),
            Coord::Interval(a, b) => assert!(b >= 2 && a <= 7),
        }
        match it.point.1 {
            Coord::Scalar(y) => assert!(3 <= y && y <= 8),
            Coord::Interval(a, b) => assert!(b >= 3 && a <= 8),
        }
    }
}
