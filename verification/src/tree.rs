//! An immutable interval tree.

use crate::order;
use std::cmp::Ordering;
use std::ops::Range;
use vstd::prelude::*;

verus! {

/// An element of an interval tree.
#[derive(Debug, PartialEq, Eq, Hash)]
pub struct Element<K, V> {
    /// The range associated with this element.
    pub range: Range<K>,
    /// The value associated with this element.
    pub value: V,
}

impl<K: Clone, V: Clone> Clone for Element<K, V> {
    fn clone(&self) -> (copy: Self)
        ensures
            cloned(self.range.start, copy.range.start),
            cloned(self.range.end, copy.range.end),
            cloned(self.value, copy.value),
    {
        Element {
            range: Range { start: self.range.start.clone(), end: self.range.end.clone() },
            value: self.value.clone(),
        }
    }
}

impl<K, V> From<(Range<K>, V)> for Element<K, V> {
    fn from(tup: (Range<K>, V)) -> (element: Element<K, V>) {
        let (range, value) = tup;
        Element { range, value }
    }
}

impl<K, V> vstd::std_specs::convert::FromSpecImpl<(Range<K>, V)> for Element<K, V> {
    open spec fn obeys_from_spec() -> bool {
        true
    }

    open spec fn from_spec(tup: (Range<K>, V)) -> Element<K, V> {
        Element { range: tup.0, value: tup.1 }
    }
}

/// An element together with the greatest range end of the subtree it heads.
#[derive(Clone, Debug, Hash)]
pub struct Node<K, V> {
    pub element: Element<K, V>,
    pub max: K,
}

/// A simple and generic implementation of an immutable interval tree.
///
/// To build it, always use [`Tree::from_iter`]. The nodes are held in the order of their ranges'
/// starts; the middle one heads the tree, and so on in each half.
#[derive(Clone, Debug, Hash)]
pub struct Tree<K, V> {
    pub data: Vec<Node<K, V>>,
}

/// An element of a tree that was read back from storage.
pub type ArchivedElement<K, V> = Element<K, V>;

/// A tree that was read back from storage. Nothing is known of what storage holds: such a tree
/// need not be well formed.
pub type ArchivedTree<K, V> = Tree<K, V>;

/// The elements held by a run of nodes.
pub open spec fn elements<K, V>(nodes: Seq<Node<K, V>>) -> Seq<Element<K, V>> {
    nodes.map_values(|node: Node<K, V>| node.element)
}

/// The nodes are ordered by the start of their ranges.
pub open spec fn sorted_by_start<K: Ord, V>(nodes: Seq<Node<K, V>>) -> bool {
    forall|i: int, j: int|
        0 <= i <= j < nodes.len() ==> !order::lt(
            (#[trigger] nodes[j]).element.range.start,
            (#[trigger] nodes[i]).element.range.start,
        )
}

/// The range ends of a run of nodes.
pub open spec fn ends<K, V>(nodes: Seq<Node<K, V>>) -> Seq<K> {
    nodes.map_values(|node: Node<K, V>| node.element.range.end)
}

/// The `max` fields of a run of nodes.
pub open spec fn maxes<K, V>(nodes: Seq<Node<K, V>>) -> Seq<K> {
    nodes.map_values(|node: Node<K, V>| node.max)
}

/// `max` is a greatest one of `keys`.
pub open spec fn is_greatest<K: Ord>(keys: Seq<K>, max: K) -> bool {
    &&& forall|i: int| 0 <= i < keys.len() ==> !order::lt(max, #[trigger] keys[i])
    &&& exists|i: int| 0 <= i < keys.len() && order::same(#[trigger] keys[i], max)
}

/// The middle position heads the tree that a run of positions forms, the positions before it
/// form its left subtree and those after it its right subtree. Every head's entry in `maxes` is
/// the greatest one of the `keys` in the tree it heads.
pub open spec fn heads_hold_greatest<K: Ord>(maxes: Seq<K>, keys: Seq<K>) -> bool
    recommends
        maxes.len() == keys.len(),
    decreases maxes.len(),
{
    maxes.len() > 0 ==> {
        let i = (maxes.len() / 2) as int;
        let n = maxes.len() as int;
        &&& is_greatest(keys, maxes[i])
        &&& heads_hold_greatest(maxes.subrange(0, i), keys.subrange(0, i))
        &&& heads_hold_greatest(maxes.subrange(i + 1, n), keys.subrange(i + 1, n))
    }
}

impl<K: Ord, V> Tree<K, V> {
    /// What building the tree establishes and searching it relies on.
    pub open spec fn well_formed(self) -> bool {
        &&& sorted_by_start(self.data@)
        &&& heads_hold_greatest(maxes(self.data@), ends(self.data@))
    }
}

/// The greater of the greatest keys of two runs is the greatest key of both runs together.
proof fn lemma_greatest_of_both<K: Ord>(keys1: Seq<K>, max1: K, keys2: Seq<K>, max2: K)
    requires
        order::total_order::<K>(),
        is_greatest(keys1, max1),
        is_greatest(keys2, max2),
    ensures
        ({
            let max = if order::lt(max2, max1) {
                max1
            } else {
                max2
            };
            is_greatest(keys1 + keys2, max) && is_greatest(keys2 + keys1, max)
        }),
{
    order::lemma_order::<K>();
    let w1 = choose|i: int| 0 <= i < keys1.len() && order::same(#[trigger] keys1[i], max1);
    let w2 = choose|i: int| 0 <= i < keys2.len() && order::same(#[trigger] keys2[i], max2);
    let (n1, n2) = (keys1.len(), keys2.len());
    assert((keys1 + keys2)[w1] == keys1[w1] && (keys2 + keys1)[n2 + w1] == keys1[w1]);
    assert((keys1 + keys2)[n1 + w2] == keys2[w2] && (keys2 + keys1)[w2] == keys2[w2]);
}

/// What is the greatest of some keys is so for any key at the same place in the order.
proof fn lemma_greatest_up_to_same<K: Ord>(keys: Seq<K>, max: K, other: K)
    requires
        order::total_order::<K>(),
        is_greatest(keys, max),
        order::same(max, other),
    ensures
        is_greatest(keys, other),
{
    order::lemma_order::<K>();
}

/// Once both subtrees are up to date and the head holds the greatest key, the whole tree is.
proof fn lemma_subtrees_updated<K: Ord, V>(before: Seq<Node<K, V>>, after: Seq<Node<K, V>>)
    requires
        before.len() == after.len() > 0,
        ({
            let mid = (before.len() / 2) as int;
            let n = before.len() as int;
            let (left, right) = (after.subrange(0, mid), after.subrange(mid + 1, n));
            &&& elements(left) == elements(before.subrange(0, mid))
            &&& heads_hold_greatest(maxes(left), maxes(before.subrange(0, mid)))
            &&& after[mid].element == before[mid].element
            &&& is_greatest(maxes(before), after[mid].max)
            &&& elements(right) == elements(before.subrange(mid + 1, n))
            &&& heads_hold_greatest(maxes(right), maxes(before.subrange(mid + 1, n)))
        }),
    ensures
        elements(after) == elements(before),
        heads_hold_greatest(maxes(after), maxes(before)),
{
    let mid = (before.len() / 2) as int;
    let n = before.len() as int;
    assert(maxes(after).subrange(0, mid) =~= maxes(after.subrange(0, mid)));
    assert(maxes(after).subrange(mid + 1, n) =~= maxes(after.subrange(mid + 1, n)));
    assert(maxes(before).subrange(0, mid) =~= maxes(before.subrange(0, mid)));
    assert(maxes(before).subrange(mid + 1, n) =~= maxes(before.subrange(mid + 1, n)));
    assert forall|j: int| 0 <= j < n implies after[j].element == #[trigger] before[j].element by {
        if j < mid {
            assert(elements(after.subrange(0, mid))[j] == elements(before.subrange(0, mid))[j]);
        } else if j > mid {
            let k = j - mid - 1;
            assert(elements(after.subrange(mid + 1, n))[k] == elements(
                before.subrange(mid + 1, n),
            )[k]);
        }
    }
    assert(elements(after) =~= elements(before));
}

impl<K: Ord + Clone, V> Tree<K, V> {
    /// Brings the `max` field of every node up to date: each becomes the greatest one of the
    /// `max` fields in the tree that the node heads. Returns that of the head of all nodes.
    pub fn update_max(nodes: &mut [Node<K, V>]) -> (max: K)
        requires
            order::total_order::<K>(),
            order::clones_compare_equal::<K>(),
            old(nodes)@.len() > 0,
        ensures
            final(nodes)@.len() == old(nodes)@.len(),
            elements(final(nodes)@) == elements(old(nodes)@),
            heads_hold_greatest(maxes(final(nodes)@), maxes(old(nodes)@)),
            is_greatest(maxes(old(nodes)@), max),
            forall|i: int|
                0 <= i < old(nodes)@.len() ==> (#[trigger] final(nodes)@[i]).element
                    == old(nodes)@[i].element,
            forall|i: int|
                0 <= i < old(nodes)@.len() ==> !order::lt(max, (#[trigger] old(nodes)@[i]).max),
            exists|i: int|
                0 <= i < old(nodes)@.len() && !order::lt((#[trigger] old(nodes)@[i]).max, max),
        decreases old(nodes)@.len(),
    {
        let ghost before = nodes@;
        let ghost keys = maxes(before);
        let i: usize = nodes.len() / 2;
        let ghost mid = i as int;
        let ghost n = before.len() as int;
        proof {
            assert(is_greatest(keys.subrange(mid, mid + 1), keys[mid])) by {
                order::lemma_order::<K>();
                assert(keys.subrange(mid, mid + 1)[0] == keys[mid]);
            }
            assert(keys.subrange(0, mid) + keys.subrange(mid, mid + 1) =~= keys.subrange(
                0,
                mid + 1,
            ));
            assert(keys.subrange(0, mid + 1) + keys.subrange(mid + 1, n) =~= keys);
        }
        let ghost mut left_nodes = before.subrange(0, mid);
        let ghost mut right_nodes = before.subrange(mid + 1, n);
        if nodes.len() > 1 {
            {
                let (left, rest) = nodes.split_at_mut(i);
                if !left.is_empty() {
                    let own = rest[0].max.clone();
                    let below = Self::update_max(left);
                    proof {
                        left_nodes = left@;
                        let own_keys = keys.subrange(mid, mid + 1);
                        assert(cloned(keys[mid], own));
                        let left_keys = keys.subrange(0, mid);
                        assert(left_keys =~= maxes(before.subrange(0, mid)));
                        lemma_greatest_up_to_same(own_keys, keys[mid], own);
                        lemma_greatest_of_both(own_keys, own, left_keys, below);
                    }
                    rest[0].max = order::greater(own, below);
                }
            }
            let ghost halfway = nodes@;
            proof {
                assert(halfway.subrange(0, mid) =~= left_nodes);
                assert(halfway.subrange(mid + 1, n) =~= before.subrange(mid + 1, n));
                assert(is_greatest(keys.subrange(0, mid + 1), halfway[mid].max));
            }
            {
                let (rest, right) = nodes.split_at_mut(i + 1);
                if !right.is_empty() {
                    let own = rest[i].max.clone();
                    let below = Self::update_max(right);
                    proof {
                        right_nodes = right@;
                        let own_keys = keys.subrange(0, mid + 1);
                        assert(cloned(halfway[mid].max, own));
                        let right_keys = keys.subrange(mid + 1, n);
                        assert(right_keys =~= maxes(halfway.subrange(mid + 1, n)));
                        lemma_greatest_up_to_same(own_keys, halfway[mid].max, own);
                        lemma_greatest_of_both(own_keys, own, right_keys, below);
                    }
                    rest[i].max = order::greater(own, below);
                }
            }
        }
        proof {
            assert(nodes@.subrange(0, mid) =~= left_nodes);
            assert(nodes@.subrange(mid + 1, n) =~= right_nodes);
            lemma_subtrees_updated(before, nodes@);
        }
        let max = nodes[i].max.clone();
        proof {
            assert(cloned(nodes@[mid].max, max));
            lemma_greatest_up_to_same(keys, nodes@[mid].max, max);
            assert forall|j: int| 0 <= j < n implies (#[trigger] nodes@[j]).element
                == before[j].element by {
                assert(elements(nodes@)[j] == elements(before)[j]);
            }
            assert forall|j: int| 0 <= j < n implies !order::lt(
                max,
                (#[trigger] before[j]).max,
            ) by {
                assert(keys[j] == before[j].max);
            }
            let w = choose|j: int| 0 <= j < keys.len() && order::same(#[trigger] keys[j], max);
            assert(keys[w] == before[w].max);
        }
        max
    }
}

/// Rearranging a sequence only rearranges what its items are mapped to.
proof fn lemma_map_rearranged<A, B>(a: Seq<A>, b: Seq<A>, f: spec_fn(A) -> B)
    requires
        a.to_multiset() == b.to_multiset(),
    ensures
        a.map_values(f).to_multiset() == b.map_values(f).to_multiset(),
    decreases a.len(),
{
    broadcast use vstd::seq_lib::group_to_multiset_ensures;
    broadcast use vstd::multiset::group_multiset_axioms;

    if a.len() == 0 {
        assert(b.to_multiset().len() == a.len());
        assert(a =~= b);
    } else {
        let last = a.last();
        let (a1, i) = (a.drop_last(), a.len() - 1);
        assert(a.to_multiset().count(last) > 0);
        let j = choose|j: int| 0 <= j < b.len() && b[j] == last;
        let b1 = b.remove(j);
        assert(a1 =~= a.remove(i));
        lemma_map_rearranged(a1, b1, f);
        assert(a.map_values(f) =~= a1.map_values(f).push(f(last)));
        assert(b.map_values(f) =~= b1.map_values(f).insert(j, f(last)));
    }
}

/// Keys at the same places in the order can stand in for each other.
proof fn lemma_heads_up_to_same<K: Ord>(maxes: Seq<K>, keys: Seq<K>, others: Seq<K>)
    requires
        order::total_order::<K>(),
        maxes.len() == keys.len() == others.len(),
        heads_hold_greatest(maxes, keys),
        forall|i: int| 0 <= i < keys.len() ==> order::same(#[trigger] keys[i], others[i]),
    ensures
        heads_hold_greatest(maxes, others),
    decreases maxes.len(),
{
    if maxes.len() > 0 {
        let i = (maxes.len() / 2) as int;
        let n = maxes.len() as int;
        lemma_heads_up_to_same(maxes.subrange(0, i), keys.subrange(0, i), others.subrange(0, i));
        lemma_heads_up_to_same(
            maxes.subrange(i + 1, n),
            keys.subrange(i + 1, n),
            others.subrange(i + 1, n),
        );
        assert(is_greatest(others, maxes[i])) by {
            order::lemma_order::<K>();
            let w = choose|j: int| 0 <= j < n && order::same(#[trigger] keys[j], maxes[i]);
            assert(order::same(others[w], maxes[i]));
            assert forall|j: int| 0 <= j < n implies !order::lt(maxes[i], #[trigger] others[j]) by {
                assert(order::same(keys[j], others[j]));
            }
        }
    }
}

/// What `I`'s conversion into elements yields is known.
pub open spec fn converts<K, V, I: Into<Element<K, V>>>() -> bool {
    <I as vstd::std_specs::convert::IntoSpec<Element<K, V>>>::obeys_into_spec()
}

/// The elements that items are converted into.
pub open spec fn converted<K, V, I: Into<Element<K, V>>>(items: Seq<I>) -> Seq<Element<K, V>> {
    items.map_values(
        |item: I| vstd::std_specs::convert::IntoSpec::<Element<K, V>>::into_spec(item),
    )
}

/// Compares two nodes by the start of their ranges.
fn compare_starts<K: Ord, V>(a: &Node<K, V>, b: &Node<K, V>) -> (ordering: Ordering)
    requires
        order::total_order::<K>(),
    ensures
        ordering == Ordering::Less <==> order::lt(a.element.range.start, b.element.range.start),
        ordering == Ordering::Greater <==> order::lt(b.element.range.start, a.element.range.start),
{
    order::compare(&a.element.range.start, &b.element.range.start)
}

/// Calls the slice method `sort_unstable_by` with [`compare_starts`]: it rearranges the nodes in
/// ascending order of the start of their ranges. In what order nodes with the same start come is
/// left open.
#[verifier::external_body]
fn sort_by_start<K: Ord, V>(nodes: &mut Vec<Node<K, V>>)
    requires
        order::total_order::<K>(),
    ensures
        final(nodes)@.to_multiset() == old(nodes)@.to_multiset(),
        sorted_by_start(final(nodes)@),
{
    nodes.sort_unstable_by(compare_starts);
}

impl<K: Ord + Clone, V> Tree<K, V> {
    /// Builds a tree of the elements that `items` are converted into. In what order elements whose
    /// ranges have the same start come is left open.
    pub fn from_iter<I: Into<Element<K, V>>>(items: Vec<I>) -> (tree: Self)
        requires
            order::total_order::<K>(),
            order::clones_compare_equal::<K>(),
        ensures
            tree.well_formed(),
            tree.data@.len() == items@.len(),
            converts::<K, V, I>() ==> elements(tree.data@).to_multiset() == converted::<K, V, I>(
                items@,
            ).to_multiset(),
    {
        let mut nodes: Vec<Node<K, V>> = Vec::new();
        let ghost given = items@;
        for item in it: items
            invariant
                order::clones_compare_equal::<K>(),
                it.seq() == given,
                nodes@.len() == it.index(),
                forall|i: int|
                    0 <= i < nodes@.len() ==> order::same(
                        (#[trigger] nodes@[i]).max,
                        nodes@[i].element.range.end,
                    ),
                converts::<K, V, I>() ==> forall|i: int|
                    0 <= i < nodes@.len() ==>
                        (#[trigger] nodes@[i]).element == converted::<K, V, I>(
                        given,
                    )[i],
        {
            let element: Element<K, V> = item.into();
            let max = element.range.end.clone();
            assert(cloned(element.range.end, max));
            nodes.push(Node { max, element });
        }
        let ghost unsorted = nodes@;
        sort_by_start(&mut nodes);
        let ghost sorted = nodes@;
        proof {
            assert(sorted.len() == unsorted.len()) by {
                broadcast use vstd::seq_lib::group_to_multiset_ensures;

                assert(sorted.to_multiset().len() == unsorted.to_multiset().len());
            }
            lemma_map_rearranged(unsorted, sorted, |node: Node<K, V>| node.element);
            if converts::<K, V, I>() {
                assert(elements(unsorted) =~= converted::<K, V, I>(given));
            }
            assert forall|i: int| 0 <= i < sorted.len() implies order::same(
                #[trigger] maxes(sorted)[i],
                ends(sorted)[i],
            ) by {
                broadcast use vstd::seq_lib::group_to_multiset_ensures;

                assert(sorted.to_multiset().count(sorted[i]) > 0);
            }
        }
        if !nodes.is_empty() {
            Self::update_max(&mut nodes);
        }
        proof {
            assert forall|i: int| 0 <= i < sorted.len() implies #[trigger] nodes@[i].element
                == sorted[i].element by {
                assert(elements(nodes@)[i] == elements(sorted)[i]);
            }
            assert(ends(nodes@) =~= ends(sorted));
            lemma_heads_up_to_same(maxes(nodes@), maxes(sorted), ends(nodes@));
        }
        Tree { data: nodes }
    }
}

} // verus!
