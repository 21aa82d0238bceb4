use huff_rs::forest::min_index;
use huff_rs::node::Node;
use huff_rs::Tree;

fn chars(s: &str) -> Vec<char> {
    s.chars().collect()
}

fn leaf(symbol: char, frequency: usize) -> Node {
    Node::Leaf { symbol, frequency }
}

fn depth_of(node: &Node, target: char, depth: usize) -> Option<usize> {
    match node {
        Node::Leaf { symbol, .. } => {
            if *symbol == target {
                Some(depth)
            } else {
                None
            }
        }
        Node::Branch { left, right, .. } => {
            depth_of(left, target, depth + 1).or(depth_of(right, target, depth + 1))
        }
    }
}

fn leaf_frequency(node: &Node, target: char) -> Option<usize> {
    match node {
        Node::Leaf { symbol, frequency } => {
            if *symbol == target {
                Some(*frequency)
            } else {
                None
            }
        }
        Node::Branch { left, right, .. } => {
            leaf_frequency(left, target).or(leaf_frequency(right, target))
        }
    }
}

fn count_leaves(node: &Node) -> usize {
    match node {
        Node::Leaf { .. } => 1,
        Node::Branch { left, right, .. } => count_leaves(left) + count_leaves(right),
    }
}

fn sums_hold(node: &Node) -> bool {
    match node {
        Node::Leaf { .. } => true,
        Node::Branch { frequency, left, right } => {
            *frequency == left.frequency() + right.frequency() && sums_hold(left) && sums_hold(right)
        }
    }
}

#[test]
fn empty_source_gives_no_tree() {
    assert!(Tree::new(&Vec::new()).is_none());
}

#[test]
fn nonempty_source_gives_a_tree() {
    assert!(Tree::new(&chars("a")).is_some());
    assert!(Tree::new(&chars("ab")).is_some());
    assert!(Tree::new(&chars("hello world")).is_some());
}

#[test]
fn empty_table_gives_no_tree() {
    assert!(Tree::from_frequencies(&Vec::new()).is_none());
}

#[test]
fn single_symbol_tree_is_a_leaf() {
    let tree = Tree::new(&chars("aaaa")).unwrap();
    match tree.root() {
        Node::Leaf { symbol, frequency } => {
            assert_eq!(*symbol, 'a');
            assert_eq!(*frequency, 4);
        }
        Node::Branch { .. } => panic!("a single symbol must give a leaf"),
    }
}

#[test]
fn mississippi_frequencies() {
    let tree = Tree::new(&chars("mississippi")).unwrap();
    let root = tree.root();
    assert_eq!(root.frequency(), 11);
    assert_eq!(count_leaves(root), 4);
    assert_eq!(leaf_frequency(root, 'm'), Some(1));
    assert_eq!(leaf_frequency(root, 'i'), Some(4));
    assert_eq!(leaf_frequency(root, 's'), Some(4));
    assert_eq!(leaf_frequency(root, 'p'), Some(2));
    assert_eq!(leaf_frequency(root, 'x'), None);
    assert!(sums_hold(root));
}

#[test]
fn mississippi_depths() {
    let tree = Tree::new(&chars("mississippi")).unwrap();
    let root = tree.root();
    assert_eq!(depth_of(root, 'm', 0), Some(3));
    assert_eq!(depth_of(root, 'p', 0), Some(3));
    let i = depth_of(root, 'i', 0).unwrap();
    let s = depth_of(root, 's', 0).unwrap();
    assert_eq!(i + s, 3);
    assert!(i == 1 || i == 2);
}

#[test]
fn more_frequent_symbols_are_not_deeper() {
    let text = chars("abracadabra alakazam, the quick brown fox jumps over the lazy dog");
    let tree = Tree::new(&text).unwrap();
    let root = tree.root();
    for a in text.iter() {
        for b in text.iter() {
            let fa = leaf_frequency(root, *a).unwrap();
            let fb = leaf_frequency(root, *b).unwrap();
            if fa > fb {
                assert!(depth_of(root, *a, 0).unwrap() <= depth_of(root, *b, 0).unwrap());
            }
        }
    }
}

#[test]
fn root_frequency_is_source_length() {
    let text = chars("the quick brown fox jumps over the lazy dog");
    let tree = Tree::new(&text).unwrap();
    assert_eq!(tree.root().frequency(), text.len());
    assert!(sums_hold(tree.root()));
}

#[test]
fn alphabet_is_the_set_of_source_symbols() {
    let tree = Tree::new(&chars("abcabc")).unwrap();
    assert!(tree.contains('a'));
    assert!(tree.contains('b'));
    assert!(tree.contains('c'));
    assert!(!tree.contains('d'));
    assert_eq!(count_leaves(tree.root()), 3);
}

#[test]
fn table_is_reduced_lightest_first() {
    let tree = Tree::from_frequencies(&vec![('a', 1), ('b', 2), ('c', 4)]).unwrap();
    match tree.root() {
        Node::Branch { frequency, left, right } => {
            assert_eq!(*frequency, 7);
            match &**right {
                Node::Leaf { symbol, frequency } => {
                    assert_eq!(*symbol, 'c');
                    assert_eq!(*frequency, 4);
                }
                Node::Branch { .. } => panic!("the heaviest leaf stands on the right"),
            }
            match &**left {
                Node::Branch { frequency, left, right } => {
                    assert_eq!(*frequency, 3);
                    assert!(matches!(&**left, Node::Leaf { symbol: 'a', frequency: 1 }));
                    assert!(matches!(&**right, Node::Leaf { symbol: 'b', frequency: 2 }));
                }
                Node::Leaf { .. } => panic!("the two lightest leaves share a branch"),
            }
        }
        Node::Leaf { .. } => panic!("three symbols must give a branch"),
    }
}

#[test]
fn equal_weights_leave_in_order_of_entry() {
    let tree = Tree::from_frequencies(&vec![('x', 1), ('y', 1), ('z', 1)]).unwrap();
    let root = tree.root();
    assert_eq!(root.frequency(), 3);
    assert_eq!(depth_of(root, 'z', 0), Some(1));
    assert_eq!(depth_of(root, 'x', 0), Some(2));
    assert_eq!(depth_of(root, 'y', 0), Some(2));
    match root {
        Node::Branch { left, .. } => {
            assert!(matches!(&**left, Node::Leaf { symbol: 'z', frequency: 1 }));
        }
        Node::Leaf { .. } => panic!("three symbols must give a branch"),
    }
}

#[test]
fn min_index_takes_the_first_of_the_lightest() {
    let queue = vec![leaf('a', 5), leaf('b', 2), leaf('c', 7), leaf('d', 2)];
    assert_eq!(min_index(&queue), 1);
    let queue = vec![leaf('a', 5)];
    assert_eq!(min_index(&queue), 0);
    let queue = vec![leaf('a', 5), leaf('b', 6), leaf('c', 1)];
    assert_eq!(min_index(&queue), 2);
}
