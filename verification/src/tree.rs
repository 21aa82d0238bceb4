//! The code tree with its alphabet, and the codec that runs on it.

use vstd::prelude::*;
use std::collections::HashSet;
use crate::bits::{bits_append, bits_get, bits_len, bits_new, bits_push, max_bits, Bits};
use crate::depth::lemma_frequent_is_short;
use crate::forest::{
    forest_symbols, huffman, join, leaf_of, leaves, lemma_leaves, lemma_remove, merge_step,
    min_index, separate, symbols_of, total_weight,
};
use crate::node::{
    bits_of_path, lemma_code_is_path, lemma_code_prefix_free, lemma_leaves_tally,
    lemma_some_symbol, lemma_walk_code, lemma_walk_partial, walk, Direction, Node,
};
use crate::tally::{
    count_symbols, distinct_symbols, is_table_of, lemma_table_total, lists, occurrences,
    tally_is_empty, tally_items, tally_of, total_count,
};

verus! {

broadcast use vstd::std_specs::hash::group_hash_axioms;

/// A Huffman tree over characters, together with the set of the characters
/// that have a leaf in it. The set holds each character by its scalar value.
pub struct Tree {
    root: Box<Node>,
    elements: HashSet<u32>,
}

impl View for Tree {
    type V = Node;

    /// The root node.
    closed spec fn view(&self) -> Node {
        *self.root
    }
}

impl Tree {
    /// The tree's invariant: the root is well formed (see [`Node::wf`]), and
    /// the set of elements holds exactly the symbols at its leaves.
    pub closed spec fn wf(&self) -> bool {
        &&& self@.wf()
        &&& forall|c: char| #[trigger] self.elements@.contains(c as u32) <==> self@.symbols().contains(c)
    }

    /// Whether `c` belongs to the tree's alphabet.
    pub open spec fn knows(&self, c: char) -> bool {
        self@.symbols().contains(c)
    }

    /// Whether every symbol of `s` belongs to the tree's alphabet.
    pub open spec fn knows_all(&self, s: Seq<char>) -> bool {
        forall|i: int| 0 <= i < s.len() ==> self.knows(#[trigger] s[i])
    }

    /// The code of a symbol: the bits of the way from the root to its leaf.
    /// Where the root is itself a leaf, the code is the single bit 0. A symbol
    /// outside the alphabet of a branching tree has no bits.
    pub open spec fn code_spec(&self, c: char) -> Seq<bool> {
        if self@ is Leaf {
            seq![false]
        } else if self.knows(c) {
            self@.code(c)
        } else {
            Seq::empty()
        }
    }

    /// The codes of the symbols of `s`, one after the other.
    pub open spec fn encode_spec(&self, s: Seq<char>) -> Seq<bool>
        decreases s.len(),
    {
        if s.len() == 0 {
            Seq::empty()
        } else {
            self.encode_spec(s.drop_last()) + self.code_spec(s.last())
        }
    }

    /// The symbols that `bits` stand for. Where the root is a leaf, every bit
    /// stands for its symbol; else the bits are walked down from the root
    /// (see [`walk`]), and bits that end below a branch give nothing.
    pub open spec fn decode_spec(&self, bits: Seq<bool>) -> Seq<char> {
        match self@ {
            Node::Leaf { symbol, .. } => Seq::new(bits.len(), |i: int| symbol),
            root => walk(root, root, bits),
        }
    }

    /// What holds of a tree that was built from the symbols `s`: its
    /// alphabet is the set of the symbols of `s`, each leaf carries the number
    /// of its symbol's occurrences in `s`, and the root the length of `s`.
    pub open spec fn built_from(&self, s: Seq<char>) -> bool {
        &&& self.wf()
        &&& self@.symbols() == s.to_set()
        &&& self@.tallies(s)
        &&& self@.weight() == s.len()
        &&& exists|items: Seq<(char, usize)>|
            is_table_of(items, s) && #[trigger] self.grown_from(items)
    }

    /// What holds of a tree that was grown from the frequency table `items`:
    /// it is the tree that the greedy reduction makes of the table's leaves.
    /// Its alphabet is the set of the table's symbols, its leaves are entries
    /// of the table, and its root carries the sum of the counts.
    pub open spec fn grown_from(&self, items: Seq<(char, usize)>) -> bool {
        &&& self.wf()
        &&& self@ == huffman(leaves(items))
        &&& self@.symbols() == symbols_of(items)
        &&& self@.leaves_in(items)
        &&& self@.weight() == total_count(items)
    }

    /// Builds the Huffman tree of `source`, or nothing where `source` is
    /// empty. The symbols are counted; the tree is grown from the counts as
    /// [`Tree::from_frequencies`] says, in the order in which the counter
    /// hands them out.
    pub fn new(source: &Vec<char>) -> (tree: Option<Tree>)
        ensures
            tree is None <==> source@.len() == 0,
            tree is Some ==> tree->0.built_from(source@),
    {
        let counts = count_symbols(source);
        if tally_is_empty(&counts) {
            proof {
                if source@.len() > 0 {
                    assert(source@.contains(source@[0]));
                    assert(tally_of(counts).dom().contains(source@[0]));
                }
            }
            return None;
        }
        let items = tally_items(&counts);
        proof {
            let s = source@;
            if s.len() == 0 {
                assert(tally_of(counts).dom() =~= Set::<char>::empty());
            }
            assert forall|i: int| 0 <= i < s.len() implies lists(items@, #[trigger] s[i]) by {
                assert(s.contains(s[i]));
                assert(tally_of(counts).dom().contains(s[i]));
            }
            assert(is_table_of(items@, s));
            lemma_table_total(items@, s);
            assert(source.len() == s.len());
            assert(lists(items@, s[0]));
        }
        let tree = Tree::from_frequencies(&items);
        proof {
            let t = tree->0;
            lemma_leaves_tally(t@, items@, source@);
            assert(symbols_of(items@) =~= source@.to_set());
            assert(t.grown_from(items@));
        }
        tree
    }

    /// Builds the Huffman tree of a frequency table, or nothing where the
    /// table is empty. Each entry becomes a leaf, and the leaves are joined by
    /// the greedy reduction [`huffman`]: the two lightest subtrees go under a
    /// new branch, the lighter on the left, until one tree is left. Of equally
    /// light subtrees the one that entered the queue first is taken first.
    pub fn from_frequencies(items: &Vec<(char, usize)>) -> (tree: Option<Tree>)
        requires
            distinct_symbols(items@),
            total_count(items@) <= usize::MAX,
        ensures
            tree is None <==> items@.len() == 0,
            tree is Some ==> tree->0.grown_from(items@),
    {
        if items.len() == 0 {
            return None;
        }
        let mut node_queue: Vec<Node> = Vec::new();
        let mut elements: HashSet<u32> = HashSet::new();
        let mut k: usize = 0;
        while k < items.len()
            invariant
                k <= items@.len(),
                node_queue@ == leaves(items@.subrange(0, k as int)),
                forall|c: char| #[trigger]
                    elements@.contains(c as u32) <==> lists(items@.subrange(0, k as int), c),
            decreases items@.len() - k,
        {
            let ghost seen = items@.subrange(0, k as int);
            let ghost next = items@.subrange(0, k + 1);
            let ghost before = node_queue@;
            let item = items[k];
            node_queue.push(Node::Leaf { symbol: item.0, frequency: item.1 });
            insert_symbol(&mut elements, item.0);
            proof {
                assert(before.len() == seen.len() == k);
                assert(next[k as int] == item);
                assert(node_queue@ == before.push(leaf_of(item)));
                assert forall|j: int| 0 <= j < k + 1 implies node_queue@[j] == leaves(next)[j] by {
                    if j < k {
                        assert(before[j] == leaf_of(seen[j]));
                        assert(next[j] == seen[j]);
                    }
                }
                assert(node_queue@ =~= leaves(next));
                assert forall|c: char| #[trigger]
                    elements@.contains(c as u32) <==> lists(next, c) by {
                    if lists(seen, c) {
                        let j = choose|j: int| 0 <= j < seen.len() && (#[trigger] seen[j]).0 == c;
                        assert(next[j].0 == c);
                    }
                    if c == item.0 {
                        assert(next[k as int].0 == c);
                    }
                    if lists(next, c) && c != item.0 {
                        let j = choose|j: int| 0 <= j < next.len() && (#[trigger] next[j]).0 == c;
                        assert(seen[j].0 == c);
                    }
                }
            }
            k += 1;
        }
        proof {
            assert(items@.subrange(0, k as int) =~= items@);
            lemma_leaves(items@);
            assert forall|j: int| 0 <= j < node_queue@.len() implies (#[trigger] node_queue@[j]).wf()
                && node_queue@[j].leaves_in(items@) by {
                assert(items@[j] == (items@[j].0, items@[j].1));
            }
        }
        while node_queue.len() > 1
            invariant
                node_queue@.len() >= 1,
                forall|j: int|
                    0 <= j < node_queue@.len() ==> (#[trigger] node_queue@[j]).wf()
                        && node_queue@[j].leaves_in(items@),
                separate(node_queue@),
                total_weight(node_queue@) == total_count(items@),
                total_count(items@) <= usize::MAX,
                forest_symbols(node_queue@) == symbols_of(items@),
                huffman(node_queue@) == huffman(leaves(items@)),
            decreases node_queue@.len(),
        {
            let ghost q = node_queue@;
            let i = min_index(&node_queue);
            let left = node_queue.remove(i);
            let ghost q1 = node_queue@;
            let j = min_index(&node_queue);
            let right = node_queue.remove(j);
            let ghost q2 = node_queue@;
            proof {
                lemma_remove(q, i as int);
                lemma_remove(q1, j as int);
                assert(merge_step(q) == q2.push(join(left, right)));
            }
            let frequency: usize = left.frequency() + right.frequency();
            let branch = Node::Branch { frequency, left: Box::new(left), right: Box::new(right) };
            node_queue.push(branch);
            proof {
                assert(node_queue@.drop_last() =~= q2);
                assert(forest_symbols(node_queue@) =~= forest_symbols(q));
                assert forall|m: int| 0 <= m < node_queue@.len() implies (#[trigger] node_queue@[m]).wf()
                    && node_queue@[m].leaves_in(items@) by {
                    if m < q2.len() {
                        let m1 = if m < j { m } else { m + 1 };
                        assert(q2[m] == q1[m1]);
                        let m0 = if m1 < i { m1 } else { m1 + 1 };
                        assert(q1[m1] == q[m0]);
                    }
                }
            }
        }
        let ghost q = node_queue@;
        let root = node_queue.remove(0);
        proof {
            assert(q.drop_last() =~= Seq::<Node>::empty());
            assert(q.last() == root);
            assert(forest_symbols(q.drop_last()) =~= Set::<char>::empty());
            assert(forest_symbols(q) =~= root.symbols());
            assert(total_weight(q.drop_last()) == 0);
        }
        Some(Tree { root: Box::new(root), elements })
    }

    /// The root node.
    pub fn root(&self) -> (root: &Node)
        ensures
            *root == self@,
    {
        &self.root
    }

    /// Whether `symbol` belongs to the tree's alphabet.
    pub fn contains(&self, symbol: char) -> (known: bool)
        requires
            self.wf(),
        ensures
            known == self.knows(symbol),
    {
        let key: u32 = symbol as u32;
        self.elements.contains(&key)
    }

    /// Searches the leaves below `head` for `target`, depth first and left
    /// before right. Where it is found, the way down to it is added to `path`;
    /// where not, `path` is left as it was.
    pub fn find_path(head: &Node, path: &mut Vec<Direction>, target: char) -> (found: bool)
        ensures
            found <==> head.symbols().contains(target),
            found ==> final(path)@ == old(path)@ + head.path_to(target),
            !found ==> final(path)@ == old(path)@,
        decreases head,
    {
        match head {
            Node::Leaf { symbol, .. } => {
                assert(path@ + head.path_to(target) =~= path@);
                *symbol == target
            },
            Node::Branch { left, right, .. } => {
                let ghost before = path@;
                path.push(Direction::Left);
                if Tree::find_path(left, path, target) {
                    assert(path@ =~= before + head.path_to(target));
                    return true;
                }
                path.pop();
                assert(path@ =~= before);
                path.push(Direction::Right);
                if Tree::find_path(right, path, target) {
                    assert(path@ =~= before + head.path_to(target));
                    return true;
                }
                path.pop();
                assert(path@ =~= before);
                false
            },
        }
    }

    /// The code of `item` (see [`Tree::code_spec`]). It is found by a search
    /// of the tree on every call; no table of codes is kept.
    fn get_code(&self, item: char) -> (code: Bits)
        requires
            self.wf(),
            self.code_spec(item).len() <= max_bits(),
        ensures
            code@ == self.code_spec(item),
    {
        let mut path: Vec<Direction> = Vec::new();
        let mut code = bits_new();
        match &*self.root {
            Node::Leaf { .. } => {
                path.push(Direction::Left);
            },
            Node::Branch { .. } => {
                Tree::find_path(&self.root, &mut path, item);
                assert(path@ =~= if self.knows(item) {
                    self@.path_to(item)
                } else {
                    Seq::empty()
                });
            },
        }
        proof {
            lemma_code_is_path(self@, item);
            assert(bits_of_path(path@) =~= self.code_spec(item));
        }
        let mut i: usize = 0;
        while i < path.len()
            invariant
                i <= path@.len(),
                path@.len() <= max_bits(),
                code@ == bits_of_path(path@).subrange(0, i as int),
            decreases path@.len() - i,
        {
            match path[i] {
                Direction::Left => bits_push(&mut code, false),
                Direction::Right => bits_push(&mut code, true),
            }
            assert(bits_of_path(path@).subrange(0, i + 1) =~= bits_of_path(path@).subrange(
                0,
                i as int,
            ).push(path@[i as int].bit()));
            i += 1;
        }
        assert(bits_of_path(path@).subrange(0, i as int) =~= bits_of_path(path@));
        code
    }

    /// The number of bits in the code of `item` (see [`Tree::code_spec`]).
    pub fn code_len(&self, item: char) -> (n: usize)
        requires
            self.wf(),
        ensures
            n == self.code_spec(item).len(),
    {
        match &*self.root {
            Node::Leaf { .. } => 1,
            Node::Branch { .. } => {
                let mut path: Vec<Direction> = Vec::new();
                Tree::find_path(&self.root, &mut path, item);
                proof {
                    lemma_code_is_path(self@, item);
                    assert(path@ =~= if self.knows(item) {
                        self@.path_to(item)
                    } else {
                        Seq::empty()
                    });
                }
                path.len()
            },
        }
    }

    /// Whether the codes of `symbols`, one after the other, fit in a bit
    /// vector: what [`Tree::encode`] asks of its input.
    pub fn fits(&self, symbols: &Vec<char>) -> (ok: bool)
        requires
            self.wf(),
        ensures
            ok == (self.encode_spec(symbols@).len() <= max_bits()),
    {
        let limit: usize = usize::MAX / 8;
        let mut total: usize = 0;
        let mut i: usize = 0;
        while i < symbols.len()
            invariant
                self.wf(),
                limit == max_bits(),
                i <= symbols@.len(),
                total <= limit,
                total == self.encode_spec(symbols@.subrange(0, i as int)).len(),
            decreases symbols@.len() - i,
        {
            let n = self.code_len(symbols[i]);
            proof {
                let next = symbols@.subrange(0, i + 1);
                assert(next.drop_last() =~= symbols@.subrange(0, i as int));
                assert(next.last() == symbols@[i as int]);
                Tree::lemma_encode_grows(*self, symbols@, i + 1);
            }
            if n > limit - total {
                return false;
            }
            total += n;
            i += 1;
        }
        assert(symbols@.subrange(0, i as int) =~= symbols@);
        true
    }

    /// Encodes `symbols`: the codes of the symbols, in order. Fails as a whole
    /// where a symbol is outside the tree's alphabet. The bits must fit in a
    /// bit vector.
    pub fn encode(&self, symbols: &Vec<char>) -> (encoded: Option<Bits>)
        requires
            self.wf(),
            self.encode_spec(symbols@).len() <= max_bits(),
        ensures
            encoded is Some <==> self.knows_all(symbols@),
            encoded is Some ==> encoded->0@ == self.encode_spec(symbols@),
    {
        let mut encoding = bits_new();
        let mut i: usize = 0;
        while i < symbols.len()
            invariant
                self.wf(),
                self.encode_spec(symbols@).len() <= max_bits(),
                i <= symbols@.len(),
                self.knows_all(symbols@.subrange(0, i as int)),
                encoding@ == self.encode_spec(symbols@.subrange(0, i as int)),
            decreases symbols@.len() - i,
        {
            let symbol = symbols[i];
            let ghost done = symbols@.subrange(0, i as int);
            let ghost next = symbols@.subrange(0, i + 1);
            proof {
                assert(next.drop_last() =~= done);
                assert(next.last() == symbol);
                Tree::lemma_encode_grows(*self, symbols@, i + 1);
            }
            if self.contains(symbol) {
                let mut code = self.get_code(symbol);
                bits_append(&mut encoding, &mut code);
                assert forall|j: int| 0 <= j < next.len() implies self.knows(#[trigger] next[j]) by {
                    if j < i {
                        assert(next[j] == done[j]);
                    }
                }
            } else {
                assert(!self.knows(symbols@[i as int]));
                return None;
            }
            i += 1;
        }
        assert(symbols@.subrange(0, i as int) =~= symbols@);
        Some(encoding)
    }

    /// Decodes `bits` (see [`Tree::decode_spec`]). Never fails: bits that end
    /// on the way down, before a leaf, are dropped without a word. Whether
    /// such a tail should rather be reported is an open question; callers
    /// that need to know can compare lengths after encoding again.
    pub fn decode(&self, bits: &Bits) -> (decoded: Vec<char>)
        requires
            self.wf(),
        ensures
            decoded@ == self.decode_spec(bits@),
    {
        let n: usize = bits_len(bits);
        let mut decoded: Vec<char> = Vec::new();
        let mut i: usize = 0;
        match &*self.root {
            Node::Leaf { symbol, .. } => {
                while i < n
                    invariant
                        i <= n,
                        decoded@ == Seq::new(i as nat, |k: int| *symbol),
                    decreases n - i,
                {
                    decoded.push(*symbol);
                    i += 1;
                    assert(decoded@ =~= Seq::new(i as nat, |k: int| *symbol));
                }
            },
            Node::Branch { .. } => {
                let mut curr_node: &Node = &self.root;
                assert(bits@.subrange(0, n as int) =~= bits@);
                assert(decoded@ + walk(self@, self@, bits@) =~= walk(self@, self@, bits@));
                while i < n
                    invariant
                        n == bits@.len(),
                        i <= n,
                        self@ is Branch,
                        *curr_node is Branch,
                        decoded@ + walk(self@, *curr_node, bits@.subrange(i as int, n as int))
                            == walk(self@, self@, bits@),
                    decreases n - i,
                {
                    let bit = bits_get(bits, i);
                    let ghost rest = bits@.subrange(i as int, n as int);
                    let ghost before = decoded@;
                    proof {
                        assert(rest[0] == bit);
                        assert(rest.drop_first() =~= bits@.subrange(i + 1, n as int));
                    }
                    match curr_node {
                        Node::Branch { left, right, .. } => {
                            let next: &Node = if bit {
                                right
                            } else {
                                left
                            };
                            match next {
                                Node::Leaf { symbol, .. } => {
                                    decoded.push(*symbol);
                                    curr_node = &self.root;
                                    assert(decoded@ + walk(self@, self@, rest.drop_first())
                                        =~= before + (seq![*symbol] + walk(
                                        self@,
                                        self@,
                                        rest.drop_first(),
                                    )));
                                },
                                Node::Branch { .. } => {
                                    curr_node = next;
                                },
                            }
                        },
                        Node::Leaf { .. } => {},
                    }
                    i += 1;
                }
                assert(bits@.subrange(n as int, n as int) =~= Seq::<bool>::empty());
                assert(decoded@ + Seq::<char>::empty() =~= decoded@);
            },
        }
        decoded
    }

    /// The encoding of a beginning of `s` is no longer than that of `s`.
    pub proof fn lemma_encode_grows(self, s: Seq<char>, k: int)
        requires
            0 <= k <= s.len(),
        ensures
            self.encode_spec(s.subrange(0, k)).len() <= self.encode_spec(s).len(),
        decreases s.len(),
    {
        if k == s.len() {
            assert(s.subrange(0, k) =~= s);
        } else {
            assert(s.drop_last().subrange(0, k) =~= s.subrange(0, k));
            self.lemma_encode_grows(s.drop_last(), k);
        }
    }
    /// Under a root that is a leaf, each symbol takes one bit.
    pub proof fn lemma_encode_leaf_len(self, s: Seq<char>)
        requires
            self@ is Leaf,
        ensures
            self.encode_spec(s).len() == s.len(),
        decreases s.len(),
    {
        if s.len() > 0 {
            self.lemma_encode_leaf_len(s.drop_last());
        }
    }

    /// Under a root that is a branch, walking the encoding of `s` with more
    /// bits behind it reads `s` and goes on from the root with those bits.
    pub proof fn lemma_walk_encoded(self, s: Seq<char>, rest: Seq<bool>)
        requires
            self@ is Branch,
            self.knows_all(s),
        ensures
            walk(self@, self@, self.encode_spec(s) + rest) == s + walk(self@, self@, rest),
        decreases s.len(),
    {
        if s.len() == 0 {
            assert(self.encode_spec(s) + rest =~= rest);
            assert(s + walk(self@, self@, rest) =~= walk(self@, self@, rest));
        } else {
            let front = s.drop_last();
            let x = s.last();
            let tail = self@.code(x) + rest;
            assert(self.knows(x));
            assert forall|i: int| 0 <= i < front.len() implies self.knows(#[trigger] front[i]) by {
                assert(front[i] == s[i]);
            }
            assert(self.encode_spec(s) + rest =~= self.encode_spec(front) + tail);
            self.lemma_walk_encoded(front, tail);
            lemma_walk_code(self@, self@, x, rest);
            assert(front + (seq![x] + walk(self@, self@, rest)) =~= s + walk(self@, self@, rest));
        }
    }

    /// Decoding the encoding of a sequence gives the sequence back, for every
    /// sequence of symbols of the tree's alphabet (as is every sequence that
    /// the tree was built from).
    pub proof fn round_trip(self, s: Seq<char>)
        requires
            self.knows_all(s),
        ensures
            self.decode_spec(self.encode_spec(s)) == s,
    {
        self.truncated_tail_is_dropped(s, Seq::empty());
        assert(self.encode_spec(s) + Seq::<bool>::empty() =~= self.encode_spec(s));
    }

    /// Decoding the encoding of the sequence that a tree was built from gives
    /// that sequence back.
    pub proof fn round_trip_of_source(self, s: Seq<char>)
        requires
            self.built_from(s),
        ensures
            self.decode_spec(self.encode_spec(s)) == s,
    {
        assert forall|i: int| 0 <= i < s.len() implies self.knows(#[trigger] s[i]) by {
            assert(s.contains(s[i]));
        }
        self.round_trip(s);
    }

    /// No symbol's code begins the code of another symbol of the alphabet.
    pub proof fn prefix_free(self, a: char, b: char)
        requires
            self.knows(a),
            self.knows(b),
            a != b,
        ensures
            !self.code_spec(a).is_prefix_of(self.code_spec(b)),
    {
        lemma_code_prefix_free(self@, a, b);
    }

    /// A symbol that occurs more often in the source of a tree has a code no
    /// longer than a symbol that occurs less often.
    pub proof fn frequent_is_short(self, s: Seq<char>, a: char, b: char)
        requires
            self.built_from(s),
            s.contains(a),
            s.contains(b),
            occurrences(s, a) > occurrences(s, b),
        ensures
            self.code_spec(a).len() <= self.code_spec(b).len(),
    {
        let items = choose|items: Seq<(char, usize)>|
            is_table_of(items, s) && #[trigger] self.grown_from(items);
        lemma_table_total(items, s);
        let i = choose|i: int| 0 <= i < s.len() && s[i] == a;
        let j = choose|j: int| 0 <= j < s.len() && s[j] == b;
        assert(lists(items, s[i]) && lists(items, s[j]));
        let x = choose|x: int| 0 <= x < items.len() && (#[trigger] items[x]).0 == a;
        let y = choose|y: int| 0 <= y < items.len() && (#[trigger] items[y]).0 == b;
        lemma_frequent_is_short(items, x, y);
    }

    /// A tree over a single symbol is a leaf.
    pub proof fn single_symbol_is_leaf(self, c: char)
        requires
            self.wf(),
            self@.symbols() == set![c],
        ensures
            self@ is Leaf,
    {
        match self@ {
            Node::Leaf { .. } => {},
            Node::Branch { left, right, .. } => {
                let a = lemma_some_symbol(*left);
                let b = lemma_some_symbol(*right);
                assert(self@.symbols().contains(a) && self@.symbols().contains(b));
            },
        }
    }

    /// Whether `part` is a proper beginning of the code of a symbol of the
    /// alphabet: bits that leave a walk from the root short of a leaf.
    pub open spec fn stops_short(self, part: Seq<bool>) -> bool {
        exists|c: char|
            self.knows(c) && part.len() < (#[trigger] self.code_spec(c)).len() && part
                == self.code_spec(c).subrange(0, part.len() as int)
    }

    /// Bits that end on the way down, before a leaf, are dropped: behind the
    /// encoding of `s`, a proper beginning of a code changes nothing in what
    /// is decoded.
    pub proof fn truncated_tail_is_dropped(self, s: Seq<char>, part: Seq<bool>)
        requires
            self.knows_all(s),
            self.stops_short(part) || part.len() == 0,
        ensures
            self.decode_spec(self.encode_spec(s) + part) == s,
    {
        match self@ {
            Node::Leaf { symbol, .. } => {
                self.lemma_encode_leaf_len(s);
                assert(part.len() == 0);
                assert(self.decode_spec(self.encode_spec(s) + part) =~= s);
            },
            Node::Branch { .. } => {
                self.lemma_walk_encoded(s, part);
                if part.len() > 0 {
                    let c = choose|c: char|
                        self.knows(c) && part.len() < (#[trigger] self.code_spec(c)).len() && part
                            == self.code_spec(c).subrange(0, part.len() as int);
                    lemma_walk_partial(self@, self@, c, part);
                }
                assert(s + walk(self@, self@, part) =~= s);
            },
        }
    }
}

/// Enters the symbol `c` into the set of elements.
fn insert_symbol(elements: &mut HashSet<u32>, c: char)
    ensures
        forall|d: char| #[trigger]
            final(elements)@.contains(d as u32) <==> (d == c || old(elements)@.contains(d as u32)),
{
    let key: u32 = c as u32;
    elements.insert(key);
}

} // verus!
