use binary_tree::iter::TreeIter;
use binary_tree::tree::BinaryTree::{self, Empty, NonEmpty};
use binary_tree::tree::TreeNode;

fn make_node<T>(left: BinaryTree<T>, element: T, right: BinaryTree<T>) -> BinaryTree<T> {
    NonEmpty(Box::new(TreeNode {
        left,
        element,
        right,
    }))
}

fn drain<'a, T>(mut iter: TreeIter<'a, T>) -> Vec<&'a T> {
    let mut seen = Vec::new();
    while let Some(element) = iter.next() {
        seen.push(element);
    }
    seen
}

#[test]
fn external_iterator() {
    let subtree_l = make_node(Empty, "mecha", Empty);
    let subtree_rl = make_node(Empty, "droid", Empty);
    let subtree_r = make_node(subtree_rl, "robot", Empty);
    let tree = make_node(subtree_l, "Jaeger", subtree_r);

    let mut v = Vec::new();
    let mut state = (&tree).into_iter();
    while let Some(kind) = state.next() {
        v.push(*kind);
    }
    assert_eq!(v, ["mecha", "Jaeger", "droid", "robot"]);

    let left_subtree = make_node(Empty, "mecha", Empty);
    let right_subtree = make_node(make_node(Empty, "droid", Empty), "robot", Empty);
    let tree = make_node(left_subtree, "Jaeger", right_subtree);

    let mut v = Vec::new();
    let mut iter = TreeIter { unvisited: vec![] };
    iter.push_left_edge(&tree);
    while let Some(kind) = iter.next() {
        v.push(*kind);
    }
    assert_eq!(v, ["mecha", "Jaeger", "droid", "robot"]);

    let mut v = Vec::new();
    let mut state = (&tree).into_iter();
    while let Some(kind) = state.next() {
        v.push(*kind);
    }
    assert_eq!(v, ["mecha", "Jaeger", "droid", "robot"]);

    let mut v = Vec::new();
    let mut state = tree.into_iter();
    while let Some(kind) = state.next() {
        v.push(*kind);
    }
    assert_eq!(v, ["mecha", "Jaeger", "droid", "robot"]);

    let mut mega = Vec::new();
    let mut state = tree.iter();
    while let Some(name) = state.next() {
        mega.push(format!("mega-{}", name));
    }
    assert_eq!(
        mega,
        vec!["mega-mecha", "mega-Jaeger", "mega-droid", "mega-robot"]
    );

    let mut iterator = tree.into_iter();
    assert_eq!(iterator.next(), Some(&"mecha"));
    assert_eq!(iterator.next(), Some(&"Jaeger"));
    assert_eq!(iterator.next(), Some(&"droid"));
    assert_eq!(iterator.next(), Some(&"robot"));
    assert_eq!(iterator.next(), None);
}

#[test]
fn iterator_over_empty_tree_is_done_at_once() {
    let tree: BinaryTree<i32> = Empty;
    let mut iter = tree.iter();
    assert!(iter.unvisited.is_empty());
    assert_eq!(iter.next(), None);
}

#[test]
fn exhausted_iterator_stays_exhausted() {
    let tree = make_node(Empty, 1, make_node(Empty, 2, Empty));
    let mut iter = tree.iter();
    assert_eq!(iter.next(), Some(&1));
    assert_eq!(iter.next(), Some(&2));
    for _ in 0..5 {
        assert_eq!(iter.next(), None);
        assert!(iter.unvisited.is_empty());
    }
}

#[test]
fn iterator_agrees_with_walk() {
    let mut tree = Empty;
    for value in vec![50, 20, 70, 20, 10, 60, 80, 30, 65, 50, 5] {
        tree.add(value);
    }
    let lazy: Vec<i32> = drain(tree.iter()).into_iter().map(|x| *x).collect();
    assert_eq!(lazy, tree.walk());
    assert_eq!(lazy, vec![5, 10, 20, 20, 30, 50, 50, 60, 65, 70, 80]);
}

#[test]
fn iterator_agrees_with_walk_on_an_unordered_tree() {
    let tree = make_node(
        make_node(make_node(Empty, 7, Empty), 3, make_node(Empty, 9, Empty)),
        1,
        make_node(make_node(Empty, 0, Empty), 8, Empty),
    );
    let lazy: Vec<i32> = drain(tree.iter()).into_iter().map(|x| *x).collect();
    assert_eq!(lazy, vec![7, 3, 9, 1, 0, 8]);
    assert_eq!(lazy, tree.walk());
}

#[test]
fn two_iterators_do_not_disturb_each_other() {
    let mut tree = Empty;
    for value in vec![4, 2, 6, 1, 3, 5, 7] {
        tree.add(value);
    }
    let mut first = tree.iter();
    let mut second = tree.iter();
    assert_eq!(first.next(), Some(&1));
    assert_eq!(first.next(), Some(&2));
    assert_eq!(first.next(), Some(&3));
    assert_eq!(second.next(), Some(&1));
    let rest_of_first: Vec<i32> = drain(first).into_iter().map(|x| *x).collect();
    assert_eq!(rest_of_first, vec![4, 5, 6, 7]);
    let rest_of_second: Vec<i32> = drain(second).into_iter().map(|x| *x).collect();
    assert_eq!(rest_of_second, vec![2, 3, 4, 5, 6, 7]);
    let third: Vec<i32> = drain(tree.iter()).into_iter().map(|x| *x).collect();
    assert_eq!(third, vec![1, 2, 3, 4, 5, 6, 7]);
    assert_eq!(tree.walk(), vec![1, 2, 3, 4, 5, 6, 7]);
}

#[test]
fn push_left_edge_stacks_the_left_spine_root_first() {
    let tree = make_node(
        make_node(make_node(Empty, 1, Empty), 2, make_node(Empty, 3, Empty)),
        4,
        make_node(Empty, 5, Empty),
    );
    let mut iter = TreeIter { unvisited: vec![] };
    iter.push_left_edge(&tree);
    let stacked: Vec<i32> = iter.unvisited.iter().map(|n| n.element).collect();
    assert_eq!(stacked, vec![4, 2, 1]);
    iter.push_left_edge(&Empty);
    assert_eq!(iter.unvisited.len(), 3);
}

#[test]
fn next_stacks_the_left_edge_of_the_right_subtree() {
    let tree = make_node(
        Empty,
        1,
        make_node(make_node(Empty, 2, Empty), 3, Empty),
    );
    let mut iter = tree.iter();
    assert_eq!(iter.unvisited.len(), 1);
    assert_eq!(iter.next(), Some(&1));
    let stacked: Vec<i32> = iter.unvisited.iter().map(|n| n.element).collect();
    assert_eq!(stacked, vec![3, 2]);
    assert_eq!(iter.next(), Some(&2));
    assert_eq!(iter.next(), Some(&3));
    assert_eq!(iter.next(), None);
}

fn height<T>(tree: &BinaryTree<T>) -> usize {
    match tree {
        Empty => 0,
        NonEmpty(n) => 1 + height(&n.left).max(height(&n.right)),
    }
}

#[test]
fn the_stack_never_outgrows_the_height_of_the_tree() {
    let mut tree = Empty;
    for value in vec![8, 3, 12, 1, 5, 10, 14, 4, 6, 11, 7] {
        tree.add(value);
    }
    assert_eq!(height(&tree), 5);
    let mut iter = tree.iter();
    assert_eq!(iter.unvisited.len(), 3);
    let mut produced = 0;
    loop {
        assert!(iter.unvisited.len() <= 5);
        if iter.next().is_none() {
            break;
        }
        produced += 1;
    }
    assert_eq!(produced, 11);
    assert!(iter.unvisited.is_empty());
}
