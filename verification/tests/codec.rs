use huff_rs::bits::Bits;
use huff_rs::node::{Direction, Node};
use huff_rs::Tree;

fn symbols(s: &str) -> Vec<char> {
    s.chars().collect()
}

fn text(v: &Vec<char>) -> String {
    v.iter().collect()
}

fn round_trips(input: String) -> bool {
    let source: Vec<char> = input.chars().collect();
    match Tree::new(&source) {
        None => input.is_empty(),
        Some(tree) => {
            let encoded = tree.encode(&source).unwrap();
            input == tree.decode(&encoded).iter().collect::<String>()
        }
    }
}

#[test]
fn encode_decode() {
    quickcheck::QuickCheck::new().quickcheck(round_trips as fn(String) -> bool);
}

#[test]
fn round_trip_on_samples() {
    for sample in ["a", "ab", "abc", "mississippi", "aaaabbbccd", "hello, world", "\u{e9}t\u{e9} \u{1f600}"] {
        assert!(round_trips(sample.to_string()));
    }
}

#[test]
fn single_symbol_takes_one_bit_each() {
    let tree = Tree::new(&symbols("aaaa")).unwrap();
    let encoded = tree.encode(&symbols("aaaa")).unwrap();
    assert_eq!(encoded.len(), 4);
    assert_eq!(encoded.to_vec(), vec![false, false, false, false]);
    assert_eq!(text(&tree.decode(&encoded)), "aaaa");
}

#[test]
fn single_symbol_tree_reads_every_bit_as_the_symbol() {
    let tree = Tree::new(&symbols("aa")).unwrap();
    let bits = Bits::from_vec(&vec![true, false, true]).unwrap();
    assert_eq!(text(&tree.decode(&bits)), "aaa");
}

#[test]
fn unknown_symbol_fails_the_whole_encoding() {
    let tree = Tree::new(&symbols("ab")).unwrap();
    assert!(tree.encode(&symbols("abc")).is_none());
    assert!(tree.encode(&symbols("c")).is_none());
    assert!(tree.encode(&symbols("ab")).is_some());
}

#[test]
fn unknown_symbol_fails_on_a_leaf_tree() {
    let tree = Tree::new(&symbols("aaa")).unwrap();
    assert!(tree.encode(&symbols("ab")).is_none());
}

#[test]
fn empty_input_encodes_to_no_bits() {
    let tree = Tree::new(&symbols("ab")).unwrap();
    let encoded = tree.encode(&Vec::new()).unwrap();
    assert_eq!(encoded.len(), 0);
    assert_eq!(tree.decode(&encoded), Vec::<char>::new());
}

#[test]
fn mississippi_is_compressed() {
    let source = symbols("mississippi");
    let tree = Tree::new(&source).unwrap();
    let encoded = tree.encode(&source).unwrap();
    assert_eq!(encoded.len(), 21);
    assert!(encoded.len() < 22);
    assert!(encoded.len() < 11 * 3);
    assert_eq!(text(&tree.decode(&encoded)), "mississippi");
}

#[test]
fn codes_follow_the_tree() {
    let tree = Tree::from_frequencies(&vec![('a', 1), ('b', 2), ('c', 4)]).unwrap();
    assert_eq!(tree.encode(&symbols("a")).unwrap().to_vec(), vec![false, false]);
    assert_eq!(tree.encode(&symbols("b")).unwrap().to_vec(), vec![false, true]);
    assert_eq!(tree.encode(&symbols("c")).unwrap().to_vec(), vec![true]);
    assert_eq!(
        tree.encode(&symbols("abc")).unwrap().to_vec(),
        vec![false, false, false, true, true]
    );
    assert_eq!(
        tree.encode(&symbols("cab")).unwrap().to_vec(),
        vec![true, false, false, false, true]
    );
}

#[test]
fn decode_reads_symbol_by_symbol() {
    let tree = Tree::from_frequencies(&vec![('a', 1), ('b', 2), ('c', 4)]).unwrap();
    let bits = Bits::from_vec(&vec![true, false, true, false, false, true]).unwrap();
    assert_eq!(text(&tree.decode(&bits)), "cbac");
}

#[test]
fn truncated_tail_is_dropped() {
    let tree = Tree::from_frequencies(&vec![('a', 1), ('b', 2), ('c', 4)]).unwrap();
    let bits = Bits::from_vec(&vec![false, false, false]).unwrap();
    assert_eq!(text(&tree.decode(&bits)), "a");
    let bits = Bits::from_vec(&vec![true, false, true, false]).unwrap();
    assert_eq!(text(&tree.decode(&bits)), "cb");
    let bits = Bits::from_vec(&vec![false]).unwrap();
    assert_eq!(text(&tree.decode(&bits)), "");
}

#[test]
fn truncated_encoding_loses_only_the_last_symbol() {
    let source = symbols("mississippi");
    let tree = Tree::new(&source).unwrap();
    let mut bits = tree.encode(&source).unwrap().to_vec();
    let mut tail = tree.encode(&symbols("m")).unwrap().to_vec();
    assert_eq!(tail.len(), 3);
    tail.pop();
    bits.extend(tail);
    let decoded = tree.decode(&Bits::from_vec(&bits).unwrap());
    assert_eq!(text(&decoded), "mississippi");
}

#[test]
fn no_code_begins_another() {
    let source = symbols("abracadabra alakazam");
    let tree = Tree::new(&source).unwrap();
    for a in source.iter() {
        for b in source.iter() {
            if a != b {
                let ca = tree.encode(&vec![*a]).unwrap().to_vec();
                let cb = tree.encode(&vec![*b]).unwrap().to_vec();
                assert!(!cb.starts_with(&ca));
            }
        }
    }
}

#[test]
fn find_path_searches_left_first() {
    let tree = Node::Branch {
        frequency: 3,
        left: Box::new(Node::Branch {
            frequency: 2,
            left: Box::new(Node::Leaf { symbol: 'a', frequency: 1 }),
            right: Box::new(Node::Leaf { symbol: 'b', frequency: 1 }),
        }),
        right: Box::new(Node::Leaf { symbol: 'c', frequency: 1 }),
    };
    let mut path = Vec::new();
    assert!(Tree::find_path(&tree, &mut path, 'b'));
    assert_eq!(path.len(), 2);
    assert!(matches!(path[0], Direction::Left));
    assert!(matches!(path[1], Direction::Right));

    let mut path = vec![Direction::Right];
    assert!(Tree::find_path(&tree, &mut path, 'c'));
    assert_eq!(path.len(), 2);
    assert!(matches!(path[1], Direction::Right));

    let mut path = vec![Direction::Left];
    assert!(!Tree::find_path(&tree, &mut path, 'z'));
    assert_eq!(path.len(), 1);
    assert!(matches!(path[0], Direction::Left));
}

#[test]
fn code_lengths() {
    let tree = Tree::from_frequencies(&vec![('a', 1), ('b', 2), ('c', 4)]).unwrap();
    assert_eq!(tree.code_len('a'), 2);
    assert_eq!(tree.code_len('b'), 2);
    assert_eq!(tree.code_len('c'), 1);
    assert_eq!(tree.code_len('z'), 0);
    let leaf = Tree::new(&symbols("aaaa")).unwrap();
    assert_eq!(leaf.code_len('a'), 1);
}

#[test]
fn short_inputs_fit() {
    let source = symbols("mississippi");
    let tree = Tree::new(&source).unwrap();
    assert!(tree.fits(&source));
    assert!(tree.fits(&Vec::new()));
}
