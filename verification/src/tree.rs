//! The tree itself: its shape, what it holds in order, insertion and the
//! eager walk.

use crate::order::{
    all_after, all_le, insert_ordered, le, lemma_insert_ordered_before, lemma_insert_ordered_past,
    insertion_sorted, sorted, total, transitive,
};
use vstd::std_specs::cmp::PartialOrdSpec;
use vstd::prelude::*;

verus! {

/// A binary tree: nothing, or a node with an element and two subtrees.
pub enum BinaryTree<T> {
    Empty,
    NonEmpty(Box<TreeNode<T>>),
}

/// One node of a `BinaryTree`.
pub struct TreeNode<T> {
    pub element: T,
    pub left: BinaryTree<T>,
    pub right: BinaryTree<T>,
}

impl<T> BinaryTree<T> {
    /// The elements from left to right: the left subtree, the node's own
    /// element, the right subtree.
    pub open spec fn inorder(self) -> Seq<T>
        decreases self,
    {
        match self {
            BinaryTree::Empty => Seq::empty(),
            BinaryTree::NonEmpty(node) => node.left.inorder() + seq![node.element]
                + node.right.inorder(),
        }
    }
}

impl<T> BinaryTree<T> {
    /// The number of nodes on the longest way from the root down.
    pub open spec fn height(self) -> nat
        decreases self,
    {
        match self {
            BinaryTree::Empty => 0,
            BinaryTree::NonEmpty(node) => if node.left.height() >= node.right.height() {
                node.left.height() + 1
            } else {
                node.right.height() + 1
            },
        }
    }
}

impl<T: PartialOrd> BinaryTree<T> {
    /// The search-tree order: at every node, all of the left subtree is at
    /// or before the node's element and none of the right subtree is.
    pub open spec fn is_ordered(self) -> bool
        decreases self,
    {
        match self {
            BinaryTree::Empty => true,
            BinaryTree::NonEmpty(node) => {
                &&& all_le(node.left.inorder(), node.element)
                &&& all_after(node.right.inorder(), node.element)
                &&& node.left.is_ordered()
                &&& node.right.is_ordered()
            },
        }
    }

    /// The tree with `value` hung at the empty place that the comparisons
    /// lead to: left where `value` is at or before a node's element, right
    /// otherwise.
    pub open spec fn with_value(self, value: T) -> BinaryTree<T>
        decreases self,
    {
        match self {
            BinaryTree::Empty => BinaryTree::NonEmpty(
                Box::new(
                    TreeNode { element: value, left: BinaryTree::Empty, right: BinaryTree::Empty },
                ),
            ),
            BinaryTree::NonEmpty(node) => if le(value, node.element) {
                BinaryTree::NonEmpty(
                    Box::new(
                        TreeNode {
                            element: node.element,
                            left: node.left.with_value(value),
                            right: node.right,
                        },
                    ),
                )
            } else {
                BinaryTree::NonEmpty(
                    Box::new(
                        TreeNode {
                            element: node.element,
                            left: node.left,
                            right: node.right.with_value(value),
                        },
                    ),
                )
            },
        }
    }
}

/// Slipping a value into the left part of `l + [e] + r` slips it into the
/// whole at the same place.
pub proof fn lemma_insert_in_left<T>(l: Seq<T>, e: T, r: Seq<T>, i: int, v: T)
    requires
        0 <= i <= l.len(),
    ensures
        l.insert(i, v) + seq![e] + r == (l + seq![e] + r).insert(i, v),
{
    assert(l.insert(i, v) + seq![e] + r =~= (l + seq![e] + r).insert(i, v));
}

/// Slipping a value into the right part of `l + [e] + r` slips it into the
/// whole, past `l` and `e`.
pub proof fn lemma_insert_in_right<T>(l: Seq<T>, e: T, r: Seq<T>, i: int, v: T)
    requires
        0 <= i <= r.len(),
    ensures
        l + seq![e] + r.insert(i, v) == (l + seq![e] + r).insert(l.len() + 1 + i, v),
{
    assert(l + seq![e] + r.insert(i, v) =~= (l + seq![e] + r).insert(l.len() + 1 + i, v));
}

impl<T: PartialOrd> BinaryTree<T> {
    /// Insertion adds exactly one occurrence of the value, somewhere in the
    /// in-order sequence, and moves nothing else.
    pub proof fn lemma_with_value_inorder(self, value: T)
        ensures
            exists|i: int|
                0 <= i <= self.inorder().len() && #[trigger] self.inorder().insert(i, value)
                    == self.with_value(value).inorder(),
        decreases self,
    {
        match self {
            BinaryTree::Empty => {
                assert(self.inorder().insert(0, value) =~= self.with_value(value).inorder());
            },
            BinaryTree::NonEmpty(node) => {
                let l = node.left.inorder();
                let r = node.right.inorder();
                if le(value, node.element) {
                    node.left.lemma_with_value_inorder(value);
                    let i = choose|i: int|
                        0 <= i <= l.len() && #[trigger] l.insert(i, value) == node.left.with_value(
                            value,
                        ).inorder();
                    lemma_insert_in_left(l, node.element, r, i, value);
                    assert(self.inorder().insert(i, value) == self.with_value(value).inorder());
                } else {
                    node.right.lemma_with_value_inorder(value);
                    let i = choose|i: int|
                        0 <= i <= r.len() && #[trigger] r.insert(i, value) == node.right.with_value(
                            value,
                        ).inorder();
                    lemma_insert_in_right(l, node.element, r, i, value);
                    assert(self.inorder().insert(l.len() + 1 + i, value) == self.with_value(
                        value,
                    ).inorder());
                }
            },
        }
    }

    /// Insertion keeps the search-tree order.
    pub proof fn lemma_with_value_ordered(self, value: T)
        requires
            self.is_ordered(),
        ensures
            self.with_value(value).is_ordered(),
        decreases self,
    {
        match self {
            BinaryTree::Empty => {},
            BinaryTree::NonEmpty(node) => {
                if le(value, node.element) {
                    node.left.lemma_with_value_ordered(value);
                    node.left.lemma_with_value_inorder(value);
                } else {
                    node.right.lemma_with_value_ordered(value);
                    node.right.lemma_with_value_inorder(value);
                }
            },
        }
    }

    /// In a search tree over an order that chains, insertion puts the value
    /// just before the first element that it is at or before.
    pub proof fn lemma_with_value_insert_ordered(self, value: T)
        requires
            self.is_ordered(),
            transitive::<T>(),
        ensures
            self.with_value(value).inorder() == insert_ordered(self.inorder(), value),
        decreases self,
    {
        match self {
            BinaryTree::Empty => {
                assert(self.with_value(value).inorder() =~= seq![value]);
            },
            BinaryTree::NonEmpty(node) => {
                let l = node.left.inorder();
                let r = node.right.inorder();
                let e = node.element;
                if le(value, e) {
                    node.left.lemma_with_value_insert_ordered(value);
                    lemma_insert_ordered_before(l, seq![e] + r, value);
                    assert(l + (seq![e] + r) =~= l + seq![e] + r);
                    assert(insert_ordered(l, value) + (seq![e] + r) =~= insert_ordered(l, value)
                        + seq![e] + r);
                } else {
                    node.right.lemma_with_value_insert_ordered(value);
                    assert forall|i: int| 0 <= i < (l + seq![e]).len() implies !le(
                        value,
                        #[trigger] (l + seq![e])[i],
                    ) by {
                        if i < l.len() {
                            assert(le(l[i], e));
                        }
                    }
                    lemma_insert_ordered_past(l + seq![e], r, value);
                }
            },
        }
    }
}

impl<T: Ord> BinaryTree<T> {
    /// Inserts `value`, going left at every node whose element it is at or
    /// before and right otherwise, until it finds an empty place.
    pub fn add(&mut self, value: T)
        ensures
            exists|i: int|
                0 <= i <= old(self).inorder().len() && #[trigger] old(self).inorder().insert(
                    i,
                    value,
                ) == final(self).inorder(),
            T::obeys_partial_cmp_spec() ==> *final(self) == old(self).with_value(value),
            T::obeys_partial_cmp_spec() && old(self).is_ordered() ==> final(self).is_ordered(),
            T::obeys_partial_cmp_spec() && transitive::<T>() && old(self).is_ordered()
                ==> final(self).inorder() == insert_ordered(old(self).inorder(), value),
        decreases *old(self),
    {
        let ghost before = *self;
        match self {
            BinaryTree::Empty => {
                *self = BinaryTree::NonEmpty(
                    Box::new(
                        TreeNode {
                            element: value,
                            left: BinaryTree::Empty,
                            right: BinaryTree::Empty,
                        },
                    ),
                );
                proof {
                    assert(before.inorder().insert(0, value) =~= self.inorder());
                }
            },
            BinaryTree::NonEmpty(node) => {
                let ghost l = node.left.inorder();
                let ghost r = node.right.inorder();
                let ghost e = node.element;
                if value <= node.element {
                    node.left.add(value);
                    proof {
                        let i = choose|i: int|
                            0 <= i <= l.len() && #[trigger] l.insert(i, value)
                                == node.left.inorder();
                        lemma_insert_in_left(l, e, r, i, value);
                        assert(before.inorder().insert(i, value) == self.inorder());
                    }
                } else {
                    node.right.add(value);
                    proof {
                        let i = choose|i: int|
                            0 <= i <= r.len() && #[trigger] r.insert(i, value)
                                == node.right.inorder();
                        lemma_insert_in_right(l, e, r, i, value);
                        assert(before.inorder().insert(l.len() + 1 + i, value) == self.inorder());
                    }
                }
            },
        }
        proof {
            if T::obeys_partial_cmp_spec() {
                assert(*self == before.with_value(value));
                if before.is_ordered() {
                    before.lemma_with_value_ordered(value);
                    if transitive::<T>() {
                        before.lemma_with_value_insert_ordered(value);
                    }
                }
            }
        }
    }
}

/// `copy` is `source` cloned element by element.
pub open spec fn cloned_from<T: Clone>(copy: Seq<T>, source: Seq<T>) -> bool {
    &&& copy.len() == source.len()
    &&& forall|i: int| 0 <= i < copy.len() ==> cloned(source[i], #[trigger] copy[i])
}

impl<T: Clone> BinaryTree<T> {
    /// All elements, cloned, in order from left to right.
    pub fn walk(&self) -> (result: Vec<T>)
        ensures
            cloned_from(result@, self.inorder()),
        decreases self,
    {
        match self {
            BinaryTree::Empty => Vec::new(),
            BinaryTree::NonEmpty(boxed) => {
                let mut result = boxed.left.walk();
                result.push(boxed.element.clone());
                let mut rest = boxed.right.walk();
                result.append(&mut rest);
                result
            },
        }
    }
}

/// The tree that starts empty and takes the values of `input` one by one.
pub open spec fn built_from<T: PartialOrd>(input: Seq<T>) -> BinaryTree<T>
    decreases input.len(),
{
    if input.len() == 0 {
        BinaryTree::Empty
    } else {
        built_from(input.drop_last()).with_value(input.last())
    }
}

/// Whatever is inserted, in whatever order, the result is a search tree; and
/// so it was after each insertion on the way, `input` being any sequence.
pub proof fn lemma_built_tree_is_ordered<T: PartialOrd>(input: Seq<T>)
    ensures
        built_from(input).is_ordered(),
    decreases input.len(),
{
    if input.len() > 0 {
        lemma_built_tree_is_ordered(input.drop_last());
        built_from(input.drop_last()).lemma_with_value_ordered(input.last());
    }
}

/// Under a total order that chains, the in-order sequence of a search tree
/// never steps down.
pub proof fn lemma_ordered_tree_is_sorted<T: PartialOrd>(tree: BinaryTree<T>)
    requires
        tree.is_ordered(),
        total::<T>(),
        transitive::<T>(),
    ensures
        sorted(tree.inorder()),
    decreases tree,
{
    match tree {
        BinaryTree::Empty => {},
        BinaryTree::NonEmpty(node) => {
            lemma_ordered_tree_is_sorted(node.left);
            lemma_ordered_tree_is_sorted(node.right);
            let l = node.left.inorder();
            let r = node.right.inorder();
            let e = node.element;
            let whole = tree.inorder();
            assert forall|i: int, j: int| 0 <= i < j < whole.len() implies le(
                #[trigger] whole[i],
                #[trigger] whole[j],
            ) by {
                if j < l.len() {
                    assert(le(l[i], l[j]));
                } else if i < l.len() {
                    assert(le(l[i], e));
                    if j > l.len() {
                        let x = r[j - l.len() - 1];
                        assert(!le(x, e));
                        assert(le(x, e) || le(e, x));
                        assert(le(l[i], e) && le(e, x));
                    }
                } else if i == l.len() {
                    let x = r[j - l.len() - 1];
                    assert(!le(x, e));
                    assert(le(x, e) || le(e, x));
                } else {
                    assert(le(r[i - l.len() - 1], r[j - l.len() - 1]));
                }
            }
        },
    }
}

/// Inserting values one by one sorts them: under a total order that chains,
/// the tree's in-order sequence is the insertion sort of the input, never
/// steps down, and holds each value as often as the input does. Of values
/// that tie, the one inserted later comes first.
pub proof fn lemma_built_tree_sorts<T: PartialOrd>(input: Seq<T>)
    requires
        total::<T>(),
        transitive::<T>(),
    ensures
        built_from(input).inorder() == insertion_sorted(input),
        sorted(built_from(input).inorder()),
        built_from(input).inorder().to_multiset() == input.to_multiset(),
    decreases input.len(),
{
    broadcast use {vstd::seq_lib::to_multiset_insert, vstd::seq_lib::to_multiset_build};

    lemma_built_tree_is_ordered(input);
    lemma_ordered_tree_is_sorted(built_from(input));
    if input.len() == 0 {
        assert(input =~= Seq::empty());
    } else {
        let earlier = built_from(input.drop_last());
        lemma_built_tree_sorts(input.drop_last());
        lemma_built_tree_is_ordered(input.drop_last());
        earlier.lemma_with_value_insert_ordered(input.last());
        earlier.lemma_with_value_inorder(input.last());
        assert(input =~= input.drop_last().push(input.last()));
    }
}

} // verus!
