use eyros::tree::{Item, Node, Tree};
use eyros::Coord;

fn row(x: i64, y: i64, value: u32, loc: (u64, u32)) -> Item {
    Item { point: (Coord::Scalar(x), Coord::Scalar(y)), value, loc }
}

#[test]
fn single_item_batch_builds_a_leaf_of_one() {
    let rows = vec![row(0, 0, 1, (0, 0))];
    let tree = Tree::build(9, &rows);
    assert_eq!(tree.count, 1);
    match &tree.root {
        Node::Data(items) => {
            assert_eq!(items.len(), 1);
            assert_eq!(items[0].value, 1);
        }
        _ => panic!("expected a leaf root"),
    }
}

#[test]
fn identical_points_build_a_valid_tree() {
    // All rows share one point: the collapse rule must still produce a
    // tree holding every row exactly once.
    let mut rows = Vec::new();
    for i in 0..20u32 {
        rows.push(row(5, 5, i, (0, i)));
    }
    let tree = Tree::build(9, &rows);
    assert_eq!(tree.count, 20);
    let (items, refs) = tree.list();
    assert_eq!(items.len(), 20);
    assert!(refs.is_empty());
    let mut values: Vec<u32> = items.iter().map(|it| it.value).collect();
    values.sort();
    let expected: Vec<u32> = (0..20).collect();
    assert_eq!(values, expected);
}

#[test]
fn bounds_are_the_component_envelope() {
    let rows = vec![
        Item {
            point: (Coord::Interval(-7, 3), Coord::Scalar(2)),
            value: 1,
            loc: (0, 0),
        },
        Item {
            point: (Coord::Scalar(5), Coord::Interval(-1, 11)),
            value: 2,
            loc: (0, 1),
        },
    ];
    let tree = Tree::build(9, &rows);
    // (min x, min y, max x, max y): intervals count with both endpoints.
    assert_eq!(tree.bounds, (-7, -1, 5, 11));
}

#[test]
fn list_returns_every_row_of_a_large_build() {
    let mut rows = Vec::new();
    for i in 0..100i64 {
        rows.push(row(i * 3 % 47, i * 7 % 31, i as u32, (0, i as u32)));
    }
    let tree = Tree::build(9, &rows);
    assert_eq!(tree.count, 100);
    let (items, _) = tree.list();
    let mut values: Vec<u32> = items.iter().map(|it| it.value).collect();
    values.sort();
    let expected: Vec<u32> = (0..100).collect();
    assert_eq!(values, expected);
}

#[test]
fn merge_folds_inserts_and_trees() {
    let first = Tree::build(9, &vec![row(0, 0, 1, (0, 0)), row(1, 1, 2, (0, 1))]);
    let second = Tree::build(9, &vec![row(2, 2, 3, (1, 0))]);
    let inserts = vec![row(3, 3, 4, (2, 0))];
    let trees = vec![first, second];
    let (merged, refs) = eyros::merge(9, &inserts, &trees);
    assert_eq!(merged.count, 4);
    assert!(refs.is_empty());
    let (items, _) = merged.list();
    let mut values: Vec<u32> = items.iter().map(|it| it.value).collect();
    values.sort();
    assert_eq!(values, vec![1, 2, 3, 4]);
}
