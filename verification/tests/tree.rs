use std::ops::Range;
use symstore::query::Query;
use symstore::tree::{Element, Node, Tree};

type TestTree = Tree<u64, u32>;

fn make_test_tree(intervals: Vec<(Range<u64>, u32)>) -> TestTree {
    Tree::from_iter(intervals)
}

fn found(tree: &TestTree, point: u64) -> Vec<u32> {
    let mut values: Vec<u32> = tree.query_point(point).collect().iter().map(|e| e.value).collect();
    values.sort();
    values
}

#[test]
fn query_point_returns_matching_elements() {
    let archived = make_test_tree(vec![(10..20, 1), (15..25, 2), (30..40, 3)]);

    let results: Vec<_> = archived.query_point(17).collect();
    assert_eq!(results.len(), 2);

    let results: Vec<_> = archived.query_point(35).collect();
    assert_eq!(results.len(), 1);

    let results: Vec<_> = archived.query_point(50).collect();
    assert_eq!(results.len(), 0);
}

#[test]
fn query_point_on_empty_tree() {
    let archived = make_test_tree(vec![]);

    let results: Vec<_> = archived.query_point(10).collect();
    assert_eq!(results.len(), 0);
}

#[test]
fn query_range_returns_overlapping_elements() {
    let archived = make_test_tree(vec![(10..20, 1), (15..25, 2), (30..40, 3)]);

    let results: Vec<_> = archived.query(12..18).collect();
    assert_eq!(results.len(), 2);

    let results: Vec<_> = archived.query(0..100).collect();
    assert_eq!(results.len(), 3);

    let results: Vec<_> = archived.query(50..60).collect();
    assert_eq!(results.len(), 0);
}

#[test]
fn query_point_single_element() {
    let archived = make_test_tree(vec![(100..200, 42)]);

    let results: Vec<_> = archived.query_point(150).collect();
    assert_eq!(results.len(), 1);
    assert_eq!(results[0].value, 42);

    // Boundary: start is inclusive
    let results: Vec<_> = archived.query_point(100).collect();
    assert_eq!(results.len(), 1);

    // Boundary: end is exclusive
    let results: Vec<_> = archived.query_point(200).collect();
    assert_eq!(results.len(), 0);
}

#[test]
fn building_sorts_and_records_greatest_ends() {
    let tree = make_test_tree(vec![(30..35, 3), (10..90, 1), (50..60, 5), (20..25, 2), (40..45, 4)]);
    let starts: Vec<u64> = tree.data.iter().map(|n| n.element.range.start).collect();
    assert_eq!(starts, vec![10, 20, 30, 40, 50]);
    let maxes: Vec<u64> = tree.data.iter().map(|n| n.max).collect();
    // The middle node heads all, positions 1 and 4 head the halves.
    assert_eq!(maxes, vec![90, 90, 90, 45, 60]);
}

#[test]
fn update_max_returns_greatest() {
    let mut nodes: Vec<Node<u64, u32>> = vec![(1..5, 0), (2..9, 1), (3..4, 2)]
        .into_iter()
        .map(|item: (Range<u64>, u32)| {
            let element = Element::from(item);
            Node { max: element.range.end, element }
        })
        .collect();
    assert_eq!(Tree::update_max(&mut nodes), 9);
    assert_eq!(nodes[1].max, 9);
    assert_eq!(nodes[0].max, 5);
    assert_eq!(nodes[2].max, 4);
}

#[test]
fn elements_with_equal_ranges_are_all_found() {
    let tree = make_test_tree(vec![(5..8, 1), (5..8, 1), (5..8, 2), (6..7, 3), (0..5, 4)]);
    assert_eq!(found(&tree, 6), vec![1, 1, 2, 3]);
    assert_eq!(found(&tree, 5), vec![1, 1, 2]);
    assert_eq!(found(&tree, 4), vec![4]);
}

#[test]
fn search_agrees_with_looking_at_every_element() {
    let items: Vec<(Range<u64>, u32)> = (0..40u64)
        .map(|i| {
            let start = (i * 37) % 50;
            (start..start + (i * 11) % 17, i as u32)
        })
        .collect();
    let tree = make_test_tree(items.clone());
    for point in 0..70 {
        let mut expected: Vec<u32> =
            items.iter().filter(|(r, _)| r.contains(&point)).map(|(_, v)| *v).collect();
        expected.sort();
        assert_eq!(found(&tree, point), expected);
        let query = point..point + 6;
        let mut expected: Vec<u32> = items
            .iter()
            .filter(|(r, _)| query.end > r.start && query.start < r.end)
            .map(|(_, v)| *v)
            .collect();
        expected.sort();
        let mut values: Vec<u32> = tree.query(query).collect().iter().map(|e| e.value).collect();
        values.sort();
        assert_eq!(values, expected);
    }
}

#[test]
fn elements_come_head_first_and_right_before_left() {
    let tree = make_test_tree((0..7u64).map(|i| (i..100, i as u32)).collect());
    let values: Vec<u32> = tree.query_point(50).collect().iter().map(|e| e.value).collect();
    assert_eq!(values, vec![3, 5, 6, 4, 1, 2, 0]);
}

#[test]
fn iterator_stays_at_its_end() {
    let tree = make_test_tree(vec![(1..3, 7)]);
    let mut iter = tree.query_point(2);
    assert_eq!(iter.next().map(|e| e.value), Some(7));
    assert!(iter.next().is_none());
    assert!(iter.next().is_none());
}

#[test]
fn corrupted_tree_is_searched_without_failing() {
    // The head claims that nothing below it ends beyond 0.
    let tree: TestTree = Tree {
        data: vec![
            Node { element: Element { range: 0..100, value: 1 }, max: 100 },
            Node { element: Element { range: 5..100, value: 2 }, max: 0 },
            Node { element: Element { range: 3..100, value: 3 }, max: 100 },
        ],
    };
    assert_eq!(found(&tree, 50), Vec::<u32>::new());
}

#[test]
fn empty_tree_has_nothing_to_do() {
    let tree = make_test_tree(vec![]);
    assert!(tree.query(0..u64::MAX).collect().is_empty());
}

#[test]
fn query_parts() {
    let point = Query::Point(10u64);
    assert_eq!(*point.point(), 10);
    assert!(point.go_right(&10) && !point.go_right(&11));
    assert!(point.intersect(&(0..11)) && !point.intersect(&(0..10)));
    let range = Query::Range(10u64..20);
    assert_eq!(*range.point(), 10);
    assert!(range.go_right(&19) && !range.go_right(&20));
    assert!(range.intersect(&(19..30)) && !range.intersect(&(20..30)));
    assert!(range.intersect(&(0..11)) && !range.intersect(&(0..10)));
}

#[test]
fn deep_tree_outgrows_the_inline_stack() {
    let tree = make_test_tree((0..200_000u64).map(|i| (i..i + 1, i as u32)).collect());
    let results = tree.query(0..200_000).collect();
    assert_eq!(results.len(), 200_000);
    assert_eq!(found(&tree, 123_456), vec![123_456]);
}

#[test]
fn clone_keeps_elements() {
    let element = Element::from((3u64..9, "x".to_string()));
    assert_eq!(element.clone(), element);
}

#[test]
fn corrupted_tree_yields_only_what_is_asked_for() {
    let ranges: Vec<(Range<u64>, u32)> = (0..50u32)
        .map(|i| (((i * 37) % 50) as u64..((i * 37) % 50 + 1 + i % 9) as u64, i))
        .collect();
    let mut tree: Tree<u64, u32> = Tree::from_iter(ranges);
    tree.data.reverse();
    tree.data[25].max = 1000;
    tree.data[7].max = 0;
    for point in 0..60 {
        let found = tree.query_point(point).collect();
        assert!(found.iter().all(|e| e.range.contains(&point)));
        let mut values: Vec<u32> = found.iter().map(|e| e.value).collect();
        let count = values.len();
        values.sort_unstable();
        values.dedup();
        assert_eq!(values.len(), count);
    }
}
