//! Searching an interval tree.

use crate::order;
use crate::todo;
use crate::todo::TodoVec;
use crate::tree;
use crate::tree::{ArchivedElement, ArchivedTree, Node};
use std::ops::Range;
use vstd::prelude::*;

verus! {

/// What a search looks for.
pub enum Query<K> {
    /// The ranges that contain a point.
    Point(K),
    /// The ranges that overlap a range.
    Range(Range<K>),
}

impl<K: Ord> Query<K> {
    /// The least position that a range has to reach beyond to be found.
    pub open spec fn spec_point(self) -> K {
        match self {
            Query::Point(k) => k,
            Query::Range(r) => r.start,
        }
    }

    /// Ranges that begin at `start` can be found, as far as their start goes.
    pub open spec fn spec_go_right(self, start: K) -> bool {
        match self {
            Query::Point(k) => !order::lt(k, start),
            Query::Range(r) => order::lt(start, r.end),
        }
    }

    /// What is left to ask of a range that begins early enough.
    pub open spec fn spec_intersect(self, range: Range<K>) -> bool {
        match self {
            Query::Point(k) => order::lt(k, range.end),
            Query::Range(r) => order::lt(range.start, r.end) && order::lt(r.start, range.end),
        }
    }

    /// The query asks for `range`: it contains the point, or both ranges overlap.
    pub open spec fn selects(self, range: Range<K>) -> bool {
        match self {
            Query::Point(k) => !order::lt(k, range.start) && order::lt(k, range.end),
            Query::Range(r) => order::lt(range.start, r.end) && order::lt(r.start, range.end),
        }
    }

    /// The least position that a range has to reach beyond to be found.
    pub fn point(&self) -> (point: &K)
        ensures
            *point == self.spec_point(),
    {
        match self {
            Query::Point(k) => k,
            Query::Range(r) => &r.start,
        }
    }

    /// Whether ranges that begin at `start` or later can be found at all.
    pub fn go_right(&self, start: &K) -> (r: bool)
        requires
            order::total_order::<K>(),
        ensures
            r == self.spec_go_right(*start),
    {
        match self {
            Query::Point(k) => !order::is_before(k, start),
            Query::Range(r) => order::is_before(start, &r.end),
        }
    }

    /// Whether a range that begins early enough is found.
    pub fn intersect(&self, range: &Range<K>) -> (r: bool)
        requires
            order::total_order::<K>(),
        ensures
            r == self.spec_intersect(*range),
    {
        match self {
            Query::Point(k) => order::is_before(k, &range.end),
            Query::Range(r) => order::is_before(&range.start, &r.end) && order::is_before(
                &r.start,
                &range.end,
            ),
        }
    }
}

/// The positions that a search of the `l` nodes from position `s` on yields, in order: the
/// head comes first, then what the right subtree yields, then the left one. A subtree is passed
/// over where its head says that no range in it ends late enough, and the head and its right
/// subtree where the head begins too late.
pub open spec fn search<K: Ord, V>(
    nodes: Seq<Node<K, V>>,
    query: Query<K>,
    s: int,
    l: int,
) -> Seq<int>
    decreases l,
{
    if l <= 0 {
        Seq::empty()
    } else {
        let i = s + l / 2;
        let head = nodes[i];
        let left = search(nodes, query, s, i - s);
        if !order::lt(query.spec_point(), head.max) {
            Seq::empty()
        } else if !query.spec_go_right(head.element.range.start) {
            left
        } else {
            let here = if query.spec_intersect(head.element.range) {
                seq![i]
            } else {
                Seq::empty()
            };
            here + search(nodes, query, i + 1, s + l - i - 1) + left
        }
    }
}

/// The positions that searching a stack of subtrees yields, its top first.
spec fn search_all<K: Ord, V>(
    nodes: Seq<Node<K, V>>,
    query: Query<K>,
    todo: Seq<(usize, usize)>,
) -> Seq<int>
    decreases todo.len(),
{
    if todo.len() == 0 {
        Seq::empty()
    } else {
        let (s, l) = todo.last();
        search(nodes, query, s as int, l as int) + search_all(nodes, query, todo.drop_last())
    }
}

/// The number of nodes in a stack of subtrees.
spec fn total_size(todo: Seq<(usize, usize)>) -> nat
    decreases todo.len(),
{
    if todo.len() == 0 {
        0
    } else {
        todo.last().1 as nat + total_size(todo.drop_last())
    }
}

/// The subtrees on the stack lie within a tree of `n` nodes, and their sizes are bounded by `n`
/// halved once for each subtree below.
spec fn todo_fits(todo: Seq<(usize, usize)>, n: int) -> bool {
    forall|j: int|
        0 <= j < todo.len() ==> {
            let (s, l) = #[trigger] todo[j];
            &&& l > 0
            &&& s + l <= n
            &&& l * vstd::arithmetic::power2::pow2(j as nat) <= n
        }
}

/// A subtree put on the stack is searched before those below it.
proof fn lemma_push_subtree<K: Ord, V>(
    nodes: Seq<Node<K, V>>,
    query: Query<K>,
    todo: Seq<(usize, usize)>,
    subtree: (usize, usize),
)
    ensures
        search_all(nodes, query, todo.push(subtree)) == search(
            nodes,
            query,
            subtree.0 as int,
            subtree.1 as int,
        ) + search_all(nodes, query, todo),
        total_size(todo.push(subtree)) == subtree.1 + total_size(todo),
{
    assert(todo.push(subtree).drop_last() =~= todo);
}

/// A stack of ever smaller subtrees is short.
proof fn lemma_todo_is_short(todo: Seq<(usize, usize)>, n: usize)
    requires
        todo_fits(todo, n as int),
    ensures
        todo.len() <= 64,
{
    if todo.len() > 64 {
        let (s, l) = todo[64];
        vstd::arithmetic::power2::lemma2_to64();
        assert(vstd::arithmetic::power2::pow2(64) == 0x1_0000_0000_0000_0000);
        assert(l * 0x1_0000_0000_0000_0000 <= n);
    }
}

/// Replacing the top of the stack by its two subtrees keeps the sizes in bounds.
proof fn lemma_halves_fit(
    below: Seq<(usize, usize)>,
    s: usize,
    l: usize,
    n: int,
    left: (usize, usize),
    right: (usize, usize),
)
    requires
        todo_fits(below.push((s, l)), n),
        0 < left.1 <= l / 2,
        left.0 + left.1 <= n,
    ensures
        todo_fits(below, n),
        todo_fits(below.push(left), n),
        0 < right.1 && 2 * right.1 <= l && right.0 + right.1 <= n ==>
            todo_fits(below.push(left).push(right), n),
{
    let before = below.push((s, l));
    let k = below.len();
    assert(before[k as int] == (s, l));
    assert forall|j: int| 0 <= j < k implies before[j] == #[trigger] below[j] by {}
    let p = vstd::arithmetic::power2::pow2(k);
    vstd::arithmetic::power2::lemma_pow2_unfold(k + 1);
    let p1 = vstd::arithmetic::power2::pow2(k + 1);
    assert(left.1 * p <= l * p) by (nonlinear_arith)
        requires left.1 <= l, 0 <= p;
    if 2 * right.1 <= l {
        assert(right.1 * p1 <= l * p) by (nonlinear_arith)
            requires 2 * right.1 <= l, 0 <= p, p1 == 2 * p;
    }
    let two = below.push(left).push(right);
    assert forall|j: int| 0 <= j < k + 1 implies two[j] == #[trigger] below.push(left)[j] by {}
}

/// `positions` are those of the nodes whose ranges the query asks for, each listed once.
pub open spec fn lists_selected<K: Ord, V>(
    nodes: Seq<Node<K, V>>,
    query: Query<K>,
    positions: Seq<int>,
) -> bool {
    &&& positions.no_duplicates()
    &&& forall|k: int| #[trigger]
        positions.contains(k) <==> 0 <= k < nodes.len() && query.selects(nodes[k].element.range)
}

/// Searching a subtree of any tree yields only nodes of that subtree whose ranges the query asks
/// for, none of them twice.
proof fn lemma_search_subtree_of_any<K: Ord, V>(
    nodes: Seq<Node<K, V>>,
    query: Query<K>,
    s: int,
    l: int,
)
    ensures
        search(nodes, query, s, l).no_duplicates(),
        forall|k: int| #[trigger]
            search(nodes, query, s, l).contains(k) ==> s <= k < s + l && query.selects(
                nodes[k].element.range,
            ),
    decreases l,
{
    if l > 0 {
        let i = s + l / 2;
        lemma_search_subtree_of_any(nodes, query, s, i - s);
        lemma_search_subtree_of_any(nodes, query, i + 1, s + l - i - 1);
        let left = search(nodes, query, s, i - s);
        let right = search(nodes, query, i + 1, s + l - i - 1);
        let all = search(nodes, query, s, l);
        let head = nodes[i];
        if order::lt(query.spec_point(), head.max) && query.spec_go_right(
            head.element.range.start,
        ) {
            let here: Seq<int> = if query.spec_intersect(head.element.range) {
                seq![i]
            } else {
                Seq::empty()
            };
            assert(all == here + right + left);
            let (h, r) = (here.len() as int, right.len() as int);
            assert forall|a: int| 0 <= a < all.len() implies {
                &&& a < h ==> all[a] == i
                &&& h <= a < h + r ==> right.contains(#[trigger] all[a])
                &&& h + r <= a ==> left.contains(all[a])
            } by {
                if h <= a < h + r {
                    assert(right.contains(right[a - h]));
                } else if h + r <= a {
                    assert(left.contains(left[a - h - r]));
                }
            }
            assert forall|a: int, b: int| 0 <= a < b < all.len() implies all[a] != all[b] by {
                if h <= a && b < h + r {
                    assert(right[a - h] != right[b - h]);
                } else if h + r <= a {
                    assert(left[a - h - r] != left[b - h - r]);
                }
            }
            assert forall|k: int| #[trigger] all.contains(k) implies s <= k < s + l
                && query.selects(nodes[k].element.range) by {
                let a = choose|a: int| 0 <= a < all.len() && all[a] == k;
                if a < h {
                    assert(k == i);
                } else if a < h + r {
                    assert(right.contains(k));
                } else {
                    assert(left.contains(k));
                }
            }
        }
    }
}

/// A search of any tree, be it well formed or not, yields only elements of the tree whose ranges
/// the query asks for, none of them twice.
pub proof fn lemma_search_of_any_tree<K: Ord, V>(tree: ArchivedTree<K, V>, query: Query<K>)
    ensures
        ({
            let found = search(tree.data@, query, 0, tree.data@.len() as int);
            &&& found.no_duplicates()
            &&& forall|j: int|
                0 <= j < found.len() ==> {
                    &&& 0 <= #[trigger] found[j] < tree.data@.len()
                    &&& query.selects(tree.data@[found[j]].element.range)
                }
        }),
{
    let found = search(tree.data@, query, 0, tree.data@.len() as int);
    lemma_search_subtree_of_any(tree.data@, query, 0, tree.data@.len() as int);
    assert forall|j: int| 0 <= j < found.len() implies {
        &&& 0 <= #[trigger] found[j] < tree.data@.len()
        &&& query.selects(tree.data@[found[j]].element.range)
    } by {
        assert(found.contains(found[j]));
    }
}

/// Within a well-formed tree, searching a subtree yields each node whose range the query asks
/// for exactly once, and no other node.
proof fn lemma_search_subtree<K: Ord, V>(nodes: Seq<Node<K, V>>, query: Query<K>, s: int, l: int)
    requires
        order::total_order::<K>(),
        tree::sorted_by_start(nodes),
        0 <= s,
        0 <= l,
        s + l <= nodes.len(),
        tree::heads_hold_greatest(
            tree::maxes(nodes).subrange(s, s + l),
            tree::ends(nodes).subrange(s, s + l),
        ),
    ensures
        search(nodes, query, s, l).no_duplicates(),
        forall|k: int| #[trigger]
            search(nodes, query, s, l).contains(k) <==> s <= k < s + l && query.selects(
                nodes[k].element.range,
            ),
    decreases l,
{
    order::lemma_order::<K>();
    if l > 0 {
        let i = s + l / 2;
        let maxes = tree::maxes(nodes).subrange(s, s + l);
        let ends = tree::ends(nodes).subrange(s, s + l);
        assert(maxes.subrange(0, i - s) =~= tree::maxes(nodes).subrange(s, i));
        assert(ends.subrange(0, i - s) =~= tree::ends(nodes).subrange(s, i));
        assert(maxes.subrange(i - s + 1, l) =~= tree::maxes(nodes).subrange(i + 1, s + l));
        assert(ends.subrange(i - s + 1, l) =~= tree::ends(nodes).subrange(i + 1, s + l));
        lemma_search_subtree(nodes, query, s, i - s);
        lemma_search_subtree(nodes, query, i + 1, s + l - i - 1);
        let left = search(nodes, query, s, i - s);
        let right = search(nodes, query, i + 1, s + l - i - 1);
        let all = search(nodes, query, s, l);
        let head = nodes[i];
        assert forall|k: int| s <= k < s + l implies
            !order::lt(head.max, (#[trigger] nodes[k]).element.range.end) by {
            assert(ends[k - s] == nodes[k].element.range.end);
            assert(maxes[i - s] == head.max);
        }
        if !order::lt(query.spec_point(), head.max) {
        } else if !query.spec_go_right(head.element.range.start) {
        } else {
            let here: Seq<int> = if query.spec_intersect(head.element.range) {
                seq![i]
            } else {
                Seq::empty()
            };
            assert(all == here + right + left);
            assert forall|k: int| #[trigger]
                all.contains(k) <==> here.contains(k) || right.contains(k) || left.contains(k) by {
                if here.contains(k) {
                    assert(all[0] == k);
                }
                if right.contains(k) {
                    let j = right.index_of(k);
                    assert(all[here.len() + j] == k);
                }
                if left.contains(k) {
                    let j = left.index_of(k);
                    assert(all[here.len() + right.len() + j] == k);
                }
            }
            assert(here.contains(i) <==> query.selects(head.element.range)) by {
                if here.len() > 0 {
                    assert(here[0] == i);
                }
            }
            assert forall|a: int, b: int| 0 <= a < b < all.len() implies all[a] != all[b] by {
                let (h, r) = (here.len() as int, right.len() as int);
                if a >= h && a < h + r {
                    assert(right.contains(right[a - h]));
                }
                if b >= h && b < h + r {
                    assert(right.contains(right[b - h]));
                }
                if a >= h + r {
                    assert(left.contains(left[a - h - r]));
                }
                if b >= h + r {
                    assert(left.contains(left[b - h - r]));
                }
            }
        }
    }
}

/// A search of a well-formed tree yields each element whose range the query asks for exactly
/// once, and no other element.
pub proof fn lemma_search_is_exact<K: Ord, V>(tree: ArchivedTree<K, V>, query: Query<K>)
    requires
        order::total_order::<K>(),
        tree.well_formed(),
    ensures
        lists_selected(tree.data@, query, search(tree.data@, query, 0, tree.data@.len() as int)),
{
    let n = tree.data@.len() as int;
    assert(tree::maxes(tree.data@).subrange(0, n) =~= tree::maxes(tree.data@));
    assert(tree::ends(tree.data@).subrange(0, n) =~= tree::ends(tree.data@));
    lemma_search_subtree(tree.data@, query, 0, n);
}

/// The elements at some positions.
pub open spec fn elements_at<K, V>(
    nodes: Seq<Node<K, V>>,
    positions: Seq<int>,
) -> Seq<ArchivedElement<K, V>> {
    positions.map_values(|i: int| nodes[i].element)
}

/// Listing the positions at which a predicate holds lists the items of which it holds.
proof fn lemma_selected_items<A>(items: Seq<A>, positions: Seq<int>, p: spec_fn(A) -> bool)
    requires
        positions.no_duplicates(),
        forall|k: int| #[trigger]
            positions.contains(k) <==> 0 <= k < items.len() && p(items[k]),
    ensures
        positions.map_values(|i: int| items[i]).to_multiset() == items.to_multiset().filter(p),
    decreases items.len(),
{
    broadcast use vstd::seq_lib::group_to_multiset_ensures;
    broadcast use vstd::multiset::group_multiset_axioms;

    let f = |i: int| items[i];
    if items.len() == 0 {
        if positions.len() > 0 {
            assert(positions.contains(positions[0]));
        }
        assert(positions.map_values(f) =~= items);
        assert(items.to_multiset().filter(p) =~= items.to_multiset());
    } else {
        let before = items.drop_last();
        let g = |i: int| before[i];
        let last = items.len() - 1;
        assert(items =~= before.push(items[last]));
        if p(items[last]) {
            assert(positions.contains(last));
            let j = choose|j: int| 0 <= j < positions.len() && positions[j] == last;
            let rest = positions.remove(j);
            assert forall|k: int| #[trigger]
                rest.contains(k) <==> 0 <= k < before.len() && p(before[k]) by {
                if rest.contains(k) {
                    let m = choose|m: int| 0 <= m < rest.len() && rest[m] == k;
                    assert(positions[if m < j { m } else { m + 1 }] == k);
                    assert(positions.contains(k));
                }
                if 0 <= k < before.len() && p(before[k]) {
                    assert(positions.contains(k));
                    let m = choose|m: int| 0 <= m < positions.len() && positions[m] == k;
                    assert(rest[if m < j { m } else { m - 1 }] == k);
                }
            }
            lemma_selected_items(before, rest, p);
            assert forall|m: int| 0 <= m < rest.len() implies
                0 <= #[trigger] rest[m] < before.len() by {
                assert(rest.contains(rest[m]));
            }
            assert(positions.map_values(f) =~= rest.map_values(g).insert(j, items[last]));
        } else {
            assert forall|k: int| #[trigger]
                positions.contains(k) <==> 0 <= k < before.len() && p(before[k]) by {}
            lemma_selected_items(before, positions, p);
            assert forall|m: int| 0 <= m < positions.len() implies
                0 <= #[trigger] positions[m] < before.len() by {
                assert(positions.contains(positions[m]));
            }
            assert(positions.map_values(f) =~= positions.map_values(g));
        }
        assert(positions.map_values(f).to_multiset() =~= items.to_multiset().filter(p));
    }
}

/// Of the elements that a tree was built from, a query finds all those whose ranges it asks for,
/// each as often as it was given, and no others.
pub proof fn lemma_finds_what_was_given<K: Ord, V>(
    tree: ArchivedTree<K, V>,
    given: Seq<ArchivedElement<K, V>>,
    query: Query<K>,
)
    requires
        order::total_order::<K>(),
        tree.well_formed(),
        tree::elements(tree.data@).to_multiset() == given.to_multiset(),
    ensures
        elements_at(
            tree.data@,
            search(tree.data@, query, 0, tree.data@.len() as int),
        ).to_multiset() == given.to_multiset().filter(
            |element: ArchivedElement<K, V>| query.selects(element.range),
        ),
{
    let positions = search(tree.data@, query, 0, tree.data@.len() as int);
    let items = tree::elements(tree.data@);
    let p = |element: ArchivedElement<K, V>| query.selects(element.range);
    lemma_search_is_exact(tree, query);
    assert forall|k: int| #[trigger]
        positions.contains(k) <==> 0 <= k < items.len() && p(items[k]) by {}
    lemma_selected_items(items, positions, p);
    assert forall|m: int| 0 <= m < positions.len() implies
        0 <= #[trigger] positions[m] < items.len() by {
        assert(positions.contains(positions[m]));
    }
    assert(elements_at(tree.data@, positions) =~= positions.map_values(|i: int| items[i]));
}

/// Iterator for query results.
pub struct QueryIter<'a, K, V> {
    tree: &'a ArchivedTree<K, V>,
    todo: TodoVec,
    query: Query<K>,
}

impl<'a, K: Ord, V> QueryIter<'a, K, V> {
    /// The nodes of the searched tree.
    pub closed spec fn nodes(self) -> Seq<Node<K, V>> {
        self.tree.data@
    }

    /// The positions of the elements that are still to come, in order.
    pub closed spec fn pending(self) -> Seq<int> {
        search_all(self.tree.data@, self.query, self.todo@)
    }

    /// The subtrees that are still to be searched lie within the tree.
    pub closed spec fn well_formed(self) -> bool {
        todo_fits(self.todo@, self.tree.data@.len() as int)
    }

    pub fn next(&mut self) -> (element: Option<&'a ArchivedElement<K, V>>)
        requires
            order::total_order::<K>(),
            old(self).well_formed(),
        ensures
            final(self).well_formed(),
            final(self).nodes() == old(self).nodes(),
            match element {
                Some(element) => {
                    &&& old(self).pending().len() > 0
                    &&& *element == old(self).nodes()[old(self).pending()[0]].element
                    &&& final(self).pending() == old(self).pending().skip(1)
                },
                None => old(self).pending().len() == 0 && final(self).pending().len() == 0,
            },
    {
        loop
            invariant
                order::total_order::<K>(),
                self.well_formed(),
                self.nodes() == old(self).nodes(),
                self.pending() == old(self).pending(),
            decreases total_size(self.todo@),
        {
            let ghost nodes = self.tree.data@;
            let ghost n = self.tree.data.len();
            proof {
                lemma_todo_is_short(self.todo@, n);
            }
            let (s, l) = match todo::todo_pop(&mut self.todo) {
                Some(subtree) => subtree,
                None => {
                    return None;
                },
            };
            let ghost below = self.todo@;
            proof {
                lemma_push_subtree(nodes, self.query, below, (s, l));
                assert(below.push((s, l))[below.len() as int] == (s, l));
            }
            let i: usize = s + l / 2;
            let node = match self.tree.data.get(i) {
                Some(node) => node,
                None => {
                    continue;
                },
            };
            proof {
                let left = (s, (i - s) as usize);
                let right = ((i + 1) as usize, (l + s - i - 1) as usize);
                lemma_push_subtree(nodes, self.query, below, left);
                lemma_push_subtree(nodes, self.query, below.push(left), right);
                assert(todo_fits(below, n as int)) by {
                    assert forall|j: int| 0 <= j < below.len() implies below.push((s, l))[j]
                        == #[trigger] below[j] by {}
                }
                if left.1 > 0 {
                    lemma_halves_fit(below, s, l, n as int, left, right);
                }
            }
            if order::is_before(self.query.point(), &node.max) {
                // push left
                let leftsz: usize = i - s;
                if leftsz > 0 {
                    todo::todo_push(&mut self.todo, (s, leftsz));
                }
                if self.query.go_right(&node.element.range.start) {
                    // push right
                    let rightsz: usize = l + s - i - 1;
                    if rightsz > 0 {
                        todo::todo_push(&mut self.todo, (i + 1, rightsz));
                    }
                    // finally, search this
                    if self.query.intersect(&node.element.range) {
                        assert(self.pending() =~= old(self).pending().skip(1));
                        return Some(&node.element);
                    }
                }
            }
            assert(self.pending() =~= old(self).pending());
        }
    }
}

impl<'a, K: Ord, V> QueryIter<'a, K, V> {
    /// Gathers all elements that are still to come.
    pub fn collect(self) -> (elements: Vec<&'a ArchivedElement<K, V>>)
        requires
            order::total_order::<K>(),
            self.well_formed(),
        ensures
            elements@.len() == self.pending().len(),
            forall|i: int|
                0 <= i < elements@.len() ==>
                    *(#[trigger] elements@[i]) == self.nodes()[self.pending()[i]].element,
    {
        let mut iter = self;
        let mut elements: Vec<&'a ArchivedElement<K, V>> = Vec::new();
        let ghost pending = self.pending();
        loop
            invariant
                order::total_order::<K>(),
                iter.well_formed(),
                iter.nodes() == self.nodes(),
                pending == self.pending(),
                elements@.len() + iter.pending().len() == pending.len(),
                iter.pending() == pending.skip(elements@.len() as int),
                forall|i: int|
                    0 <= i < elements@.len() ==>
                        *(#[trigger] elements@[i]) == self.nodes()[pending[i]].element,
            decreases iter.pending().len(),
        {
            match iter.next() {
                Some(element) => {
                    elements.push(element);
                },
                None => {
                    return elements;
                },
            }
        }
    }
}

impl<K: Ord, V> ArchivedTree<K, V> {
    /// The subtrees that a search starts with: the whole tree, unless it is empty.
    pub fn todo(&self) -> (todo: TodoVec)
        ensures
            todo@ == if self.data@.len() == 0 {
                Seq::<(usize, usize)>::empty()
            } else {
                seq![(0usize, self.data@.len() as usize)]
            },
    {
        let mut todo = todo::todo_new();
        if !self.data.is_empty() {
            todo::todo_push(&mut todo, (0, self.data.len()));
        }
        assert(self.data.len() == self.data@.len());
        todo
    }

    fn start(&self, query: Query<K>) -> (iter: QueryIter<'_, K, V>)
        ensures
            iter.well_formed(),
            iter.nodes() == self.data@,
            iter.pending() == search(self.data@, query, 0, self.data@.len() as int),
            order::total_order::<K>() && self.well_formed() ==> lists_selected(
                self.data@,
                query,
                iter.pending(),
            ),
    {
        let todo = self.todo();
        let iter = QueryIter { tree: self, todo, query };
        proof {
            let n = self.data@.len();
            assert(self.data.len() == n);
            assert(todo_fits(todo@, n as int)) by {
                vstd::arithmetic::power2::lemma2_to64();
                assert(n * vstd::arithmetic::power2::pow2(0) == n) by (nonlinear_arith)
                    requires
                        vstd::arithmetic::power2::pow2(0) == 1,
                ;
                assert forall|j: int| 0 <= j < todo@.len() implies
                    j == 0 && #[trigger] todo@[j] == (0usize, n as usize) by {}
            }
            if n > 0 {
                assert(todo@.drop_last() =~= Seq::<(usize, usize)>::empty());
            }
            assert(iter.pending() =~= search(self.data@, query, 0, n as int)) by {
                reveal_with_fuel(search_all, 2);
            }
            if order::total_order::<K>() && self.well_formed() {
                lemma_search_is_exact(*self, query);
            }
        }
        iter
    }

    /// Queries the interval tree for all elements overlapping a given interval.
    pub fn query(&self, range: Range<K>) -> (iter: QueryIter<'_, K, V>)
        ensures
            iter.well_formed(),
            iter.nodes() == self.data@,
            iter.pending() == search(self.data@, Query::Range(range), 0, self.data@.len() as int),
            order::total_order::<K>() && self.well_formed() ==> lists_selected(
                self.data@,
                Query::Range(range),
                iter.pending(),
            ),
    {
        self.start(Query::Range(range))
    }

    /// Queries the interval tree for all elements containing a given point.
    pub fn query_point(&self, point: K) -> (iter: QueryIter<'_, K, V>)
        ensures
            iter.well_formed(),
            iter.nodes() == self.data@,
            iter.pending() == search(self.data@, Query::Point(point), 0, self.data@.len() as int),
            order::total_order::<K>() && self.well_formed() ==> lists_selected(
                self.data@,
                Query::Point(point),
                iter.pending(),
            ),
    {
        self.start(Query::Point(point))
    }
}

} // verus!
