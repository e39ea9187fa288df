//! What comes of building trees and of searching them.

use crate::order;
use crate::query;
use crate::query::{Query, QueryIter};
use crate::tree;
use crate::tree::{ArchivedElement, ArchivedTree, Element, Node, Tree};
use std::ops::Range;
use vstd::prelude::*;

verus! {

/// A pair becomes the element of its range and its value.
pub proof fn lemma_element_from<K, V>(pair: (Range<K>, V), element: Element<K, V>)
    requires
        call_ensures(<Element<K, V> as From<(Range<K>, V)>>::from, (pair,), element),
    ensures
        element.range == pair.0,
        element.value == pair.1,
{
}

/// The elements of a tree, in the order of its nodes.
pub open spec fn held<K, V>(tree: ArchivedTree<K, V>) -> Seq<Element<K, V>> {
    Seq::new(tree.data@.len(), |i: int| tree.data@[i].element)
}

/// The elements of some pairs.
pub open spec fn paired<K, V>(pairs: Seq<(Range<K>, V)>) -> Seq<Element<K, V>> {
    Seq::new(pairs.len(), |i: int| Element { range: pairs[i].0, value: pairs[i].1 })
}

/// The elements that references point to.
pub open spec fn pointed_to<'a, K, V>(found: Seq<&'a ArchivedElement<K, V>>) -> Seq<
    Element<K, V>,
> {
    Seq::new(found.len(), |i: int| *found[i])
}

/// A key as great as `maxes[i]` is among `keys`, and none of those that it heads is greater.
proof fn lemma_heads<K: Ord>(maxes: Seq<K>, keys: Seq<K>)
    requires
        order::total_order::<K>(),
        maxes.len() == keys.len(),
        tree::heads_hold_greatest(maxes, keys),
    ensures
        forall|i: int| 0 <= i < maxes.len() ==> !order::lt(#[trigger] maxes[i], keys[i]),
        forall|i: int| 0 <= i < maxes.len() ==> #[trigger] is_among(keys, maxes[i]),
    decreases maxes.len(),
{
    if maxes.len() > 0 {
        let mid = (maxes.len() / 2) as int;
        let n = maxes.len() as int;
        let (left, right) = (maxes.subrange(0, mid), maxes.subrange(mid + 1, n));
        let (left_keys, right_keys) = (keys.subrange(0, mid), keys.subrange(mid + 1, n));
        lemma_heads(left, left_keys);
        lemma_heads(right, right_keys);
        assert forall|i: int| 0 <= i < n implies {
            &&& !order::lt(#[trigger] maxes[i], keys[i])
            &&& is_among(keys, maxes[i])
        } by {
            if i < mid {
                assert(left[i] == maxes[i] && left_keys[i] == keys[i]);
                assert(is_among(left_keys, left[i]));
                let j = choose|j: int|
                    0 <= j < left_keys.len() && order::same(#[trigger] left_keys[j], left[i]);
                assert(keys[j] == left_keys[j]);
            } else if i > mid {
                let k = i - mid - 1;
                assert(right[k] == maxes[i] && right_keys[k] == keys[i]);
                assert(is_among(right_keys, right[k]));
                let j = choose|j: int|
                    0 <= j < right_keys.len() && order::same(#[trigger] right_keys[j], right[k]);
                assert(keys[mid + 1 + j] == right_keys[j]);
            }
        }
    }
}

/// One of the keys is at the same place in the order as `key`.
pub open spec fn is_among<K: Ord>(keys: Seq<K>, key: K) -> bool {
    exists|j: int| 0 <= j < keys.len() && order::same(#[trigger] keys[j], key)
}

/// A tree built from pairs holds their elements and no others, ordered by where they start. The
/// `max` of every node is the end of some element, and not before that of its own. That of the
/// head is not before any.
pub proof fn lemma_from_iter<K: Ord + Clone, V>(pairs: Vec<(Range<K>, V)>, tree: Tree<K, V>)
    requires
        call_ensures(Tree::<K, V>::from_iter::<(Range<K>, V)>, (pairs,), tree),
        order::total_order::<K>(),
    ensures
        tree.data@.len() == pairs@.len(),
        held(tree).to_multiset() == paired(pairs@).to_multiset(),
        forall|i: int, j: int|
            0 <= i < j < tree.data@.len() ==> !order::lt(
                (#[trigger] tree.data@[j]).element.range.start,
                (#[trigger] tree.data@[i]).element.range.start,
            ),
        forall|i: int|
            0 <= i < tree.data@.len() ==> {
                &&& !order::lt((#[trigger] tree.data@[i]).max, tree.data@[i].element.range.end)
                &&& exists|j: int|
                    0 <= j < tree.data@.len() && !order::lt(
                        (#[trigger] tree.data@[j]).element.range.end,
                        tree.data@[i].max,
                    )
            },
        forall|i: int|
            0 <= i < tree.data@.len() ==> !order::lt(
                tree.data@[tree.data@.len() as int / 2].max,
                (#[trigger] tree.data@[i]).element.range.end,
            ),
{
    let nodes = tree.data@;
    let (maxes, ends) = (tree::maxes(nodes), tree::ends(nodes));
    lemma_heads(maxes, ends);
    assert(held(tree) =~= tree::elements(nodes));
    assert(paired(pairs@) =~= tree::converted::<K, V, (Range<K>, V)>(pairs@));
    assert forall|i: int| 0 <= i < nodes.len() implies {
        &&& !order::lt((#[trigger] nodes[i]).max, nodes[i].element.range.end)
        &&& exists|j: int|
            0 <= j < nodes.len() && !order::lt(
                (#[trigger] nodes[j]).element.range.end,
                nodes[i].max,
            )
        &&& !order::lt(nodes[nodes.len() as int / 2].max, nodes[i].element.range.end)
    } by {
        assert(maxes[i] == nodes[i].max && ends[i] == nodes[i].element.range.end);
        assert(is_among(ends, maxes[i]));
        let j = choose|j: int| 0 <= j < ends.len() && order::same(#[trigger] ends[j], maxes[i]);
        assert(ends[j] == nodes[j].element.range.end);
    }
}

proof fn lemma_collected<'a, K: Ord, V>(
    tree: ArchivedTree<K, V>,
    query: Query<K>,
    iter: QueryIter<'a, K, V>,
    found: Vec<&'a ArchivedElement<K, V>>,
)
    requires
        iter.nodes() == tree.data@,
        iter.pending() == query::search(tree.data@, query, 0, tree.data@.len() as int),
        call_ensures(QueryIter::<K, V>::collect, (iter,), found),
    ensures
        pointed_to(found@) == query::elements_at(
            tree.data@,
            query::search(tree.data@, query, 0, tree.data@.len() as int),
        ),
        forall|i: int| 0 <= i < found@.len() ==> query.selects((*#[trigger] found@[i]).range),
        order::total_order::<K>() && tree.well_formed() ==> pointed_to(found@).to_multiset()
            == held(tree).to_multiset().filter(
            |element: Element<K, V>| query.selects(element.range),
        ),
{
    let positions = query::search(tree.data@, query, 0, tree.data@.len() as int);
    query::lemma_search_of_any_tree(tree, query);
    assert(pointed_to(found@) =~= query::elements_at(tree.data@, positions));
    assert forall|i: int| 0 <= i < found@.len() implies query.selects(
        (*#[trigger] found@[i]).range,
    ) by {
        assert(0 <= positions[i] < tree.data@.len());
    }
    if order::total_order::<K>() && tree.well_formed() {
        assert(held(tree) =~= tree::elements(tree.data@));
        query::lemma_finds_what_was_given(tree, held(tree), query);
    }
}

/// Querying a point yields, of a well-formed tree, just the elements whose ranges begin at the
/// point or before and end after it, each as often as the tree holds it. Of any tree, it yields no
/// others.
pub proof fn lemma_query_point<'a, K: Ord, V>(
    tree: ArchivedTree<K, V>,
    point: K,
    iter: QueryIter<'a, K, V>,
    found: Vec<&'a ArchivedElement<K, V>>,
)
    requires
        call_ensures(ArchivedTree::<K, V>::query_point, (&tree, point), iter),
        call_ensures(QueryIter::<K, V>::collect, (iter,), found),
    ensures
        forall|i: int|
            0 <= i < found@.len() ==> {
                let range = (*#[trigger] found@[i]).range;
                !order::lt(point, range.start) && order::lt(point, range.end)
            },
        order::total_order::<K>() && tree.well_formed() ==> pointed_to(found@).to_multiset()
            == held(tree).to_multiset().filter(
            |element: Element<K, V>|
                !order::lt(point, element.range.start) && order::lt(point, element.range.end),
        ),
{
    broadcast use vstd::multiset::group_multiset_axioms;

    let query = Query::Point(point);
    lemma_collected(tree, query, iter, found);
    let all = held(tree).to_multiset();
    let selected = |element: Element<K, V>| query.selects(element.range);
    let asked = |element: Element<K, V>|
        !order::lt(point, element.range.start) && order::lt(point, element.range.end);
    assert(all.filter(selected) =~= all.filter(asked));
}

/// Querying a range yields, of a well-formed tree, just the elements whose ranges begin before it
/// ends and end after it begins, each as often as the tree holds it. Of any tree, it yields no
/// others.
pub proof fn lemma_query<'a, K: Ord, V>(
    tree: ArchivedTree<K, V>,
    range: Range<K>,
    iter: QueryIter<'a, K, V>,
    found: Vec<&'a ArchivedElement<K, V>>,
)
    requires
        call_ensures(ArchivedTree::<K, V>::query, (&tree, range), iter),
        call_ensures(QueryIter::<K, V>::collect, (iter,), found),
    ensures
        forall|i: int|
            0 <= i < found@.len() ==> {
                let other = (*#[trigger] found@[i]).range;
                order::lt(other.start, range.end) && order::lt(range.start, other.end)
            },
        order::total_order::<K>() && tree.well_formed() ==> pointed_to(found@).to_multiset()
            == held(tree).to_multiset().filter(
            |element: Element<K, V>|
                order::lt(element.range.start, range.end) && order::lt(
                    range.start,
                    element.range.end,
                ),
        ),
{
    broadcast use vstd::multiset::group_multiset_axioms;

    let query = Query::Range(range);
    lemma_collected(tree, query, iter, found);
    let all = held(tree).to_multiset();
    let selected = |element: Element<K, V>| query.selects(element.range);
    let asked = |element: Element<K, V>|
        order::lt(element.range.start, range.end) && order::lt(range.start, element.range.end);
    assert(all.filter(selected) =~= all.filter(asked));
}

/// Of the pairs that a tree of numbers was built from, querying a point yields those whose ranges
/// contain it, each as often as it was given, and no others.
pub proof fn lemma_query_point_of_built<'a, V>(
    pairs: Vec<(Range<u64>, V)>,
    tree: Tree<u64, V>,
    point: u64,
    iter: QueryIter<'a, u64, V>,
    found: Vec<&'a ArchivedElement<u64, V>>,
)
    requires
        call_ensures(Tree::<u64, V>::from_iter::<(Range<u64>, V)>, (pairs,), tree),
        call_ensures(ArchivedTree::<u64, V>::query_point, (&tree, point), iter),
        call_ensures(QueryIter::<u64, V>::collect, (iter,), found),
    ensures
        pointed_to(found@).to_multiset() == paired(pairs@).to_multiset().filter(
            |element: Element<u64, V>| element.range.start <= point < element.range.end,
        ),
{
    broadcast use vstd::multiset::group_multiset_axioms;

    order::lemma_u64_keys();
    lemma_from_iter(pairs, tree);
    lemma_query_point(tree, point, iter, found);
    let all = paired(pairs@).to_multiset();
    let asked = |element: Element<u64, V>|
        !order::lt(point, element.range.start) && order::lt(point, element.range.end);
    let plain = |element: Element<u64, V>| element.range.start <= point < element.range.end;
    assert(all.filter(asked) =~= all.filter(plain));
}

/// Of the pairs that a tree of numbers was built from, querying a range yields those whose ranges
/// overlap it, each as often as it was given, and no others.
pub proof fn lemma_query_of_built<'a, V>(
    pairs: Vec<(Range<u64>, V)>,
    tree: Tree<u64, V>,
    range: Range<u64>,
    iter: QueryIter<'a, u64, V>,
    found: Vec<&'a ArchivedElement<u64, V>>,
)
    requires
        call_ensures(Tree::<u64, V>::from_iter::<(Range<u64>, V)>, (pairs,), tree),
        call_ensures(ArchivedTree::<u64, V>::query, (&tree, range), iter),
        call_ensures(QueryIter::<u64, V>::collect, (iter,), found),
    ensures
        pointed_to(found@).to_multiset() == paired(pairs@).to_multiset().filter(
            |element: Element<u64, V>|
                element.range.start < range.end && range.start < element.range.end,
        ),
{
    broadcast use vstd::multiset::group_multiset_axioms;

    order::lemma_u64_keys();
    lemma_from_iter(pairs, tree);
    lemma_query(tree, range, iter, found);
    let all = paired(pairs@).to_multiset();
    let asked = |element: Element<u64, V>|
        order::lt(element.range.start, range.end) && order::lt(range.start, element.range.end);
    let plain = |element: Element<u64, V>|
        element.range.start < range.end && range.start < element.range.end;
    assert(all.filter(asked) =~= all.filter(plain));
}

/// The order of what a query of a point yields, be the tree well formed or not. A subtree whose
/// head's `max` is not beyond the point yields nothing. One whose head begins after the point
/// yields what its left subtree does. Any other yields its head, if that ends after the point,
/// then what its right subtree does, then what its left one does.
pub proof fn lemma_order_of_points<K: Ord, V>(
    nodes: Seq<Node<K, V>>,
    point: K,
    s: int,
    l: int,
)
    ensures
        ({
            let found = |s: int, l: int| query::search(nodes, Query::Point(point), s, l);
            let i = s + l / 2;
            let (left, right) = (found(s, l / 2), found(i + 1, l - l / 2 - 1));
            let range = nodes[i].element.range;
            found(s, l) == if l <= 0 || !order::lt(point, nodes[i].max) {
                Seq::<int>::empty()
            } else if order::lt(point, range.start) {
                left
            } else if order::lt(point, range.end) {
                seq![i] + right + left
            } else {
                right + left
            }
        }),
{
    let i = s + l / 2;
    if l > 0 {
        assert(i - s == l / 2 && s + l - i - 1 == l - l / 2 - 1);
        let right = query::search(nodes, Query::Point(point), i + 1, l - l / 2 - 1);
        assert(Seq::<int>::empty() + right =~= right);
    }
}

/// The order of what a query of a range yields, be the tree well formed or not. A subtree whose
/// head's `max` is not beyond the start of the range yields nothing. One whose head begins at the
/// end of the range or later yields what its left subtree does. Any other yields its head, if that
/// ends after the start of the range, then what its right subtree does, then what its left one
/// does.
pub proof fn lemma_order_of_ranges<K: Ord, V>(
    nodes: Seq<Node<K, V>>,
    range: Range<K>,
    s: int,
    l: int,
)
    ensures
        ({
            let found = |s: int, l: int| query::search(nodes, Query::Range(range), s, l);
            let i = s + l / 2;
            let (left, right) = (found(s, l / 2), found(i + 1, l - l / 2 - 1));
            let other = nodes[i].element.range;
            found(s, l) == if l <= 0 || !order::lt(range.start, nodes[i].max) {
                Seq::<int>::empty()
            } else if !order::lt(other.start, range.end) {
                left
            } else if order::lt(range.start, other.end) {
                seq![i] + right + left
            } else {
                right + left
            }
        }),
{
    let i = s + l / 2;
    if l > 0 {
        assert(i - s == l / 2 && s + l - i - 1 == l - l / 2 - 1);
        let right = query::search(nodes, Query::Range(range), i + 1, l - l / 2 - 1);
        assert(Seq::<int>::empty() + right =~= right);
    }
}

/// What a query yields, in order, is what the search of all nodes finds.
pub proof fn lemma_order_of_found<'a, K: Ord, V>(
    tree: ArchivedTree<K, V>,
    point: K,
    range: Range<K>,
    points: QueryIter<'a, K, V>,
    ranges: QueryIter<'a, K, V>,
    by_point: Vec<&'a ArchivedElement<K, V>>,
    by_range: Vec<&'a ArchivedElement<K, V>>,
)
    requires
        call_ensures(ArchivedTree::<K, V>::query_point, (&tree, point), points),
        call_ensures(QueryIter::<K, V>::collect, (points,), by_point),
        call_ensures(ArchivedTree::<K, V>::query, (&tree, range), ranges),
        call_ensures(QueryIter::<K, V>::collect, (ranges,), by_range),
    ensures
        ({
            let (nodes, n) = (tree.data@, tree.data@.len() as int);
            let at = query::search(nodes, Query::Point(point), 0, n);
            &&& by_point@.len() == at.len()
            &&& forall|i: int|
                0 <= i < at.len() ==> *(#[trigger] by_point@[i]) == nodes[at[i]].element
        }),
        ({
            let (nodes, n) = (tree.data@, tree.data@.len() as int);
            let at = query::search(nodes, Query::Range(range), 0, n);
            &&& by_range@.len() == at.len()
            &&& forall|i: int|
                0 <= i < at.len() ==> *(#[trigger] by_range@[i]) == nodes[at[i]].element
        }),
{
}

/// What a query asks of a range in three parts.
pub proof fn lemma_query_parts<K: Ord>(
    query: Query<K>,
    range: Range<K>,
    point: &K,
    go_right: bool,
    intersect: bool,
)
    requires
        call_ensures(Query::<K>::point, (&query,), point),
        call_ensures(Query::<K>::go_right, (&query, &range.start), go_right),
        call_ensures(Query::<K>::intersect, (&query, &range), intersect),
    ensures
        match query {
            Query::Point(k) => {
                &&& *point == k
                &&& go_right <==> !order::lt(k, range.start)
                &&& intersect <==> order::lt(k, range.end)
            },
            Query::Range(r) => {
                &&& *point == r.start
                &&& go_right <==> order::lt(range.start, r.end)
                &&& intersect <==> order::lt(range.start, r.end) && order::lt(r.start, range.end)
            },
        },
{
}

/// Bringing the `max` fields up to date changes nothing else. No field becomes less, and each
/// becomes one of those that there were. What is returned is the greatest one, which the head then
/// holds.
pub proof fn lemma_update_max<K: Ord + Clone, V>(nodes: &mut [Node<K, V>], max: K)
    requires
        call_ensures(Tree::<K, V>::update_max, (nodes,), max),
        order::total_order::<K>(),
        old(nodes)@.len() > 0,
    ensures
        final(nodes)@.len() == old(nodes)@.len(),
        forall|i: int|
            0 <= i < old(nodes)@.len() ==> {
                &&& (#[trigger] final(nodes)@[i]).element == old(nodes)@[i].element
                &&& !order::lt(final(nodes)@[i].max, old(nodes)@[i].max)
                &&& !order::lt(max, final(nodes)@[i].max)
                &&& !order::lt(final(nodes)@[old(nodes)@.len() as int / 2].max, old(nodes)@[i].max)
                &&& exists|j: int|
                    0 <= j < old(nodes)@.len() && order::same(
                        (#[trigger] old(nodes)@[j]).max,
                        final(nodes)@[i].max,
                    )
            },
        forall|i: int|
            0 <= i < old(nodes)@.len() ==> !order::lt(max, (#[trigger] old(nodes)@[i]).max),
{
    order::lemma_order::<K>();
    let (before, after) = (old(nodes)@, final(nodes)@);
    let (keys, maxes) = (tree::maxes(before), tree::maxes(after));
    lemma_heads(maxes, keys);
    assert forall|i: int| 0 <= i < before.len() implies {
        &&& !order::lt((#[trigger] after[i]).max, before[i].max)
        &&& !order::lt(max, after[i].max)
        &&& !order::lt(after[before.len() as int / 2].max, before[i].max)
        &&& exists|j: int|
            0 <= j < before.len() && order::same((#[trigger] before[j]).max, after[i].max)
    } by {
        assert(maxes[i] == after[i].max && keys[i] == before[i].max);
        assert(is_among(keys, maxes[i]));
        let j = choose|j: int| 0 <= j < keys.len() && order::same(#[trigger] keys[j], maxes[i]);
        assert(keys[j] == before[j].max);
        assert(!order::lt(max, before[j].max));
    }
}

/// Taking elements one by one yields what gathering them all does, in the same order.
pub proof fn lemma_next<'a, K: Ord, V>(
    iter: &mut QueryIter<'a, K, V>,
    element: Option<&'a ArchivedElement<K, V>>,
    all: Vec<&'a ArchivedElement<K, V>>,
    rest: Vec<&'a ArchivedElement<K, V>>,
)
    requires
        call_ensures(QueryIter::<K, V>::next, (iter,), element),
        call_ensures(QueryIter::<K, V>::collect, (*old(iter),), all),
        call_ensures(QueryIter::<K, V>::collect, (*final(iter),), rest),
    ensures
        element is None <==> all@.len() == 0,
        element is None ==> rest@.len() == 0,
        element is Some ==> *element->0 == *all@[0],
        pointed_to(rest@) == if all@.len() == 0 {
            Seq::<Element<K, V>>::empty()
        } else {
            pointed_to(all@).skip(1)
        },
{
    if all@.len() > 0 {
        assert(pointed_to(rest@) =~= pointed_to(all@).skip(1));
    } else {
        assert(pointed_to(rest@) =~= Seq::<Element<K, V>>::empty());
    }
}

} // verus!
