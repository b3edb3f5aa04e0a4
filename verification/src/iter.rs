//! The lazy in-order iterator: a stack of nodes whose element is still to
//! come, and the proof that popping it yields what the eager walk yields.

use crate::tree::{BinaryTree, TreeNode};
use vstd::prelude::*;

verus! {

/// The state of an in-order traversal of a `BinaryTree`.
pub struct TreeIter<'a, T> {
    /// The nodes whose element has not been produced yet and whose left
    /// subtree is done with or stacked above them. The last one is the top.
    pub unvisited: Vec<&'a TreeNode<T>>,
}

/// The nodes met on the way from the root of `tree` down its left edge, the
/// root first.
pub open spec fn left_spine<T>(tree: BinaryTree<T>) -> Seq<TreeNode<T>>
    decreases tree,
{
    match tree {
        BinaryTree::Empty => Seq::empty(),
        BinaryTree::NonEmpty(node) => seq![*node] + left_spine(node.left),
    }
}

/// What a traversal with this stack still has to produce, in order: for each
/// node from the top down, its element and then its right subtree.
pub open spec fn pending<T>(frontier: Seq<TreeNode<T>>) -> Seq<T>
    decreases frontier.len(),
{
    if frontier.len() == 0 {
        Seq::empty()
    } else {
        seq![frontier.last().element] + frontier.last().right.inorder() + pending(
            frontier.drop_last(),
        )
    }
}

/// One advance on a stack: the element produced, if any, and the stack that
/// is left. An empty stack produces nothing and stays empty; otherwise the top
/// is popped, its element produced, and the left edge of its right subtree
/// stacked.
pub open spec fn advance<T>(frontier: Seq<TreeNode<T>>) -> (Option<T>, Seq<TreeNode<T>>) {
    if frontier.len() == 0 {
        (None, frontier)
    } else {
        (
            Some(frontier.last().element),
            frontier.drop_last() + left_spine(frontier.last().right),
        )
    }
}

/// The stack after `n` advances.
pub open spec fn advanced_by<T>(frontier: Seq<TreeNode<T>>, n: nat) -> Seq<TreeNode<T>>
    decreases n,
{
    if n == 0 {
        frontier
    } else {
        advanced_by(advance(frontier).1, (n - 1) as nat)
    }
}

/// What the advance after `n` earlier ones produces.
pub open spec fn nth_output<T>(frontier: Seq<TreeNode<T>>, n: nat) -> Option<T> {
    advance(advanced_by(frontier, n)).0
}

/// Stacking the left edge of a tree on a stack puts the whole tree in front
/// of what was pending.
pub proof fn lemma_pending_after_push<T>(base: Seq<TreeNode<T>>, tree: BinaryTree<T>)
    ensures
        pending(base + left_spine(tree)) == tree.inorder() + pending(base),
    decreases tree,
{
    match tree {
        BinaryTree::Empty => {
            assert(base + left_spine(tree) =~= base);
            assert(tree.inorder() + pending(base) =~= pending(base));
        },
        BinaryTree::NonEmpty(node) => {
            let above = base + seq![*node];
            lemma_pending_after_push(above, node.left);
            assert(above + left_spine(node.left) =~= base + left_spine(tree));
            assert(above.drop_last() =~= base);
            assert(above.last() == *node);
            assert(node.left.inorder() + (seq![node.element] + node.right.inorder() + pending(base))
                =~= tree.inorder() + pending(base));
        },
    }
}

/// One advance produces the first pending element and leaves the others
/// pending, in their order.
pub proof fn lemma_advance_pending<T>(frontier: Seq<TreeNode<T>>)
    ensures
        pending(frontier).len() == 0 <==> frontier.len() == 0,
        frontier.len() == 0 ==> advance(frontier) == (None::<T>, frontier),
        frontier.len() > 0 ==> advance(frontier).0 == Some(pending(frontier)[0]),
        frontier.len() > 0 ==> pending(advance(frontier).1) == pending(frontier).drop_first(),
{
    if frontier.len() > 0 {
        let top = frontier.last();
        lemma_pending_after_push(frontier.drop_last(), top.right);
        assert(top.right.inorder() + pending(frontier.drop_last()) =~= pending(
            frontier,
        ).drop_first());
    }
}

/// What `calls` advances produce between them, the first element first: the
/// elements up to the first advance that produces none.
pub open spec fn collected<T>(frontier: Seq<TreeNode<T>>, calls: nat) -> Seq<T>
    decreases calls,
{
    if calls == 0 {
        Seq::empty()
    } else {
        match advance(frontier).0 {
            None => Seq::empty(),
            Some(element) => seq![element] + collected(advance(frontier).1, (calls - 1) as nat),
        }
    }
}

/// After `n` advances the first `n` pending elements are gone, the others
/// are pending still, and the next advance produces the first of them.
pub proof fn lemma_advanced_by_pending<T>(frontier: Seq<TreeNode<T>>, n: nat)
    ensures
        n <= pending(frontier).len() ==> pending(advanced_by(frontier, n)) == pending(
            frontier,
        ).skip(n as int),
        n < pending(frontier).len() ==> nth_output(frontier, n) == Some(pending(frontier)[n as int]),
        n >= pending(frontier).len() ==> nth_output(frontier, n) == None::<T> && advanced_by(
            frontier,
            n,
        ).len() == 0,
    decreases n,
{
    lemma_advance_pending(frontier);
    if n == 0 {
        assert(pending(frontier).skip(0) =~= pending(frontier));
    } else {
        let rest = advance(frontier).1;
        lemma_advanced_by_pending(rest, (n - 1) as nat);
        lemma_advance_pending(advanced_by(rest, (n - 1) as nat));
        if frontier.len() > 0 {
            if n <= pending(frontier).len() {
                assert(pending(frontier).drop_first().skip(n - 1) =~= pending(frontier).skip(
                    n as int,
                ));
            }
        }
    }
}

/// Collecting with at least as many advances as there are pending elements
/// yields exactly the pending elements; with fewer, the first of them.
pub proof fn lemma_collected_pending<T>(frontier: Seq<TreeNode<T>>, calls: nat)
    ensures
        calls >= pending(frontier).len() ==> collected(frontier, calls) == pending(frontier),
        calls < pending(frontier).len() ==> collected(frontier, calls) == pending(frontier).take(
            calls as int,
        ),
    decreases calls,
{
    lemma_advance_pending(frontier);
    if calls == 0 {
        assert(pending(frontier).take(0) =~= Seq::<T>::empty());
        assert(pending(frontier).len() == 0 ==> pending(frontier) =~= Seq::<T>::empty());
    } else if frontier.len() == 0 {
        assert(pending(frontier) =~= Seq::<T>::empty());
    } else {
        let rest = advance(frontier).1;
        lemma_collected_pending(rest, (calls - 1) as nat);
        let all = pending(frontier);
        if calls >= all.len() {
            assert(seq![all[0]] + all.drop_first() =~= all);
        } else {
            assert(seq![all[0]] + all.drop_first().take(calls - 1) =~= all.take(calls as int));
        }
    }
}

/// The lazy traversal and the eager walk agree: a fresh traversal of a tree
/// produces the tree's in-order sequence, element by element, and collecting
/// it to the end yields that sequence exactly.
pub proof fn lemma_traversal_matches_walk<T>(tree: BinaryTree<T>, n: nat, calls: nat)
    requires
        calls >= tree.inorder().len(),
    ensures
        pending(left_spine(tree)) == tree.inorder(),
        n < tree.inorder().len() ==> nth_output(left_spine(tree), n) == Some(
            tree.inorder()[n as int],
        ),
        n >= tree.inorder().len() ==> nth_output(left_spine(tree), n) == None::<T>,
        collected(left_spine(tree), calls) == tree.inorder(),
{
    lemma_pending_after_push(Seq::empty(), tree);
    assert(Seq::<TreeNode<T>>::empty() + left_spine(tree) =~= left_spine(tree));
    assert(tree.inorder() + Seq::<T>::empty() =~= tree.inorder());
    lemma_advanced_by_pending(left_spine(tree), n);
    lemma_collected_pending(left_spine(tree), calls);
}

/// Two traversals started on one tree produce the same elements, and what
/// one of them has done, `used` advances of it, changes neither what the
/// other produces nor what the tree holds: a traversal's state is a value of
/// its own, and an advance reads and writes nothing else.
pub proof fn lemma_traversals_are_independent<T>(
    tree: BinaryTree<T>,
    first: Seq<TreeNode<T>>,
    second: Seq<TreeNode<T>>,
    used: nat,
    calls: nat,
)
    requires
        first == left_spine(tree),
        second == left_spine(tree),
        calls >= tree.inorder().len(),
    ensures
        collected(first, calls) == collected(second, calls),
        collected(second, calls) == tree.inorder(),
        used <= tree.inorder().len() ==> collected(advanced_by(first, used), calls)
            == tree.inorder().skip(used as int),
{
    lemma_traversal_matches_walk(tree, used, calls);
    lemma_advanced_by_pending(first, used);
    lemma_collected_pending(advanced_by(first, used), calls);
}

/// `frontier` is a stack that a traversal of `tree` can hold: empty, or else
/// it starts with the root and goes on as a stack for the left subtree, or,
/// the root being done with, it is a stack for the right subtree.
pub open spec fn stack_within<T>(frontier: Seq<TreeNode<T>>, tree: BinaryTree<T>) -> bool
    decreases tree,
{
    frontier.len() == 0 || match tree {
        BinaryTree::Empty => false,
        BinaryTree::NonEmpty(node) => {
            ||| frontier[0] == *node && stack_within(frontier.drop_first(), node.left)
            ||| stack_within(frontier, node.right)
        },
    }
}

/// A stack for a tree holds no more nodes than the tree is high.
pub proof fn lemma_stack_within_height<T>(frontier: Seq<TreeNode<T>>, tree: BinaryTree<T>)
    requires
        stack_within(frontier, tree),
    ensures
        frontier.len() <= tree.height(),
    decreases tree,
{
    if frontier.len() > 0 {
        match tree {
            BinaryTree::Empty => {},
            BinaryTree::NonEmpty(node) => {
                if frontier[0] == *node && stack_within(frontier.drop_first(), node.left) {
                    lemma_stack_within_height(frontier.drop_first(), node.left);
                } else {
                    lemma_stack_within_height(frontier, node.right);
                }
            },
        }
    }
}

/// The left edge of a tree is a stack for it.
pub proof fn lemma_left_spine_within<T>(tree: BinaryTree<T>)
    ensures
        stack_within(left_spine(tree), tree),
    decreases tree,
{
    match tree {
        BinaryTree::Empty => {},
        BinaryTree::NonEmpty(node) => {
            lemma_left_spine_within(node.left);
            assert(left_spine(tree).drop_first() =~= left_spine(node.left));
        },
    }
}

/// An advance turns a stack for a tree into a stack for the same tree.
pub proof fn lemma_advance_within<T>(frontier: Seq<TreeNode<T>>, tree: BinaryTree<T>)
    requires
        stack_within(frontier, tree),
    ensures
        stack_within(advance(frontier).1, tree),
    decreases tree,
{
    if frontier.len() > 0 {
        match tree {
            BinaryTree::Empty => {},
            BinaryTree::NonEmpty(node) => {
                let after = advance(frontier).1;
                if frontier[0] == *node && stack_within(frontier.drop_first(), node.left) {
                    if frontier.len() == 1 {
                        lemma_left_spine_within(node.right);
                        assert(after =~= left_spine(node.right));
                    } else {
                        let above = frontier.drop_first();
                        lemma_advance_within(above, node.left);
                        assert(above.last() == frontier.last());
                        assert(after =~= seq![*node] + advance(above).1);
                        assert(after.drop_first() =~= advance(above).1);
                    }
                } else {
                    lemma_advance_within(frontier, node.right);
                }
            },
        }
    }
}

/// However far a traversal of a tree has come, its stack holds no more nodes
/// than the tree is high.
pub proof fn lemma_traversal_stack_bounded<T>(tree: BinaryTree<T>, n: nat)
    ensures
        stack_within(advanced_by(left_spine(tree), n), tree),
        advanced_by(left_spine(tree), n).len() <= tree.height(),
{
    lemma_left_spine_within(tree);
    lemma_advanced_by_within(left_spine(tree), tree, n);
    lemma_stack_within_height(advanced_by(left_spine(tree), n), tree);
}

/// Any number of advances turn a stack for a tree into a stack for the same
/// tree.
pub proof fn lemma_advanced_by_within<T>(frontier: Seq<TreeNode<T>>, tree: BinaryTree<T>, n: nat)
    requires
        stack_within(frontier, tree),
    ensures
        stack_within(advanced_by(frontier, n), tree),
    decreases n,
{
    if n > 0 {
        lemma_advance_within(frontier, tree);
        lemma_advanced_by_within(advance(frontier).1, tree, (n - 1) as nat);
    }
}

/// Once an advance has produced nothing, the stack is empty, and every later
/// advance produces nothing and leaves it empty.
pub proof fn lemma_exhaustion_is_final<T>(frontier: Seq<TreeNode<T>>, n: nat, later: nat)
    requires
        nth_output(frontier, n) is None,
        later >= n,
    ensures
        nth_output(frontier, later) is None,
        advanced_by(frontier, later).len() == 0,
        advance(advanced_by(frontier, later)).1 == advanced_by(frontier, later),
{
    lemma_advanced_by_pending(frontier, n);
    lemma_advanced_by_pending(frontier, later);
}

impl<'a, T> TreeIter<'a, T> {
    /// The stack as a sequence of nodes, the top last.
    pub open spec fn frontier(self) -> Seq<TreeNode<T>> {
        self.unvisited@.map_values(|node: &TreeNode<T>| *node)
    }

    /// The elements still to come, in the order in which `next` produces them.
    pub open spec fn remaining(self) -> Seq<T> {
        pending(self.frontier())
    }

    /// Stacks the nodes on the left edge of `tree`, from its root down.
    pub fn push_left_edge(&mut self, tree: &'a BinaryTree<T>)
        ensures
            final(self).frontier() == old(self).frontier() + left_spine(*tree),
            final(self).remaining() == tree.inorder() + old(self).remaining(),
    {
        let ghost start = self.frontier();
        let mut tree = tree;
        let ghost whole = *tree;
        loop
            invariant
                self.frontier() + left_spine(*tree) == start + left_spine(whole),
            ensures
                self.frontier() == start + left_spine(whole),
            decreases *tree,
        {
            match tree {
                BinaryTree::NonEmpty(node) => {
                    let ghost stacked = self.frontier();
                    self.unvisited.push(node);
                    proof {
                        assert(self.frontier() =~= stacked + seq![**node]);
                        assert(self.frontier() + left_spine(node.left) =~= stacked + left_spine(
                            *tree,
                        ));
                    }
                    tree = &node.left;
                },
                BinaryTree::Empty => {
                    proof {
                        assert(self.frontier() + left_spine(*tree) =~= self.frontier());
                    }
                    break ;
                },
            }
        }
        proof {
            lemma_pending_after_push(start, whole);
        }
    }

    /// Produces the next element in order, or `None` once all have been
    /// produced, and from then on.
    pub fn next(&mut self) -> (produced: Option<&'a T>)
        ensures
            (match produced {
                Some(element) => Some(*element),
                None => None,
            }, final(self).frontier()) == advance(old(self).frontier()),
            old(self).remaining().len() == 0 ==> produced is None && final(self).remaining().len()
                == 0,
            old(self).remaining().len() > 0 ==> produced == Some(&old(self).remaining()[0])
                && final(self).remaining() == old(self).remaining().drop_first(),
    {
        let ghost before = self.frontier();
        proof {
            lemma_advance_pending(before);
        }
        let node = match self.unvisited.pop() {
            None => return None,
            Some(n) => n,
        };
        proof {
            assert(self.frontier() =~= before.drop_last());
            assert(*node == before.last());
        }
        self.push_left_edge(&node.right);
        Some(&node.element)
    }
}

impl<T> BinaryTree<T> {
    /// A traversal of this tree that has produced nothing yet.
    pub fn iter(&self) -> (fresh: TreeIter<'_, T>)
        ensures
            fresh.frontier() == left_spine(*self),
            fresh.remaining() == self.inorder(),
    {
        let mut iter = TreeIter { unvisited: Vec::new() };
        iter.push_left_edge(self);
        proof {
            assert(Seq::<TreeNode<T>>::empty() + left_spine(*self) =~= left_spine(*self));
            assert(self.inorder() + Seq::<T>::empty() =~= self.inorder());
        }
        iter
    }

    /// The same as `iter`.
    pub fn into_iter(&self) -> (fresh: TreeIter<'_, T>)
        ensures
            fresh.frontier() == left_spine(*self),
            fresh.remaining() == self.inorder(),
    {
        self.iter()
    }
}

} // verus!
