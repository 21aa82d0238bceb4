//! The nodes of a code tree, and what a tree means as a code: the path and
//! the bits of each symbol, and the walk that reads symbols back from bits.

use vstd::prelude::*;

verus! {

/// One step down a tree. `Left` is written as the bit 0, `Right` as 1.
#[derive(Debug)]
pub enum Direction {
    Left,
    Right,
}

impl Direction {
    /// The bit that stands for the direction.
    pub open spec fn bit(self) -> bool {
        self is Right
    }
}

/// A node of a code tree: a leaf with its symbol, or a branch with two
/// subtrees. Each carries a frequency.
pub enum Node {
    Leaf { symbol: char, frequency: usize },
    Branch { frequency: usize, left: Box<Node>, right: Box<Node> },
}

impl Node {
    /// The frequency that the node carries.
    pub open spec fn weight(self) -> nat {
        match self {
            Node::Leaf { frequency, .. } => frequency as nat,
            Node::Branch { frequency, .. } => frequency as nat,
        }
    }

    /// The symbols at the leaves below (or at) the node.
    pub open spec fn symbols(self) -> Set<char>
        decreases self,
    {
        match self {
            Node::Leaf { symbol, .. } => set![symbol],
            Node::Branch { left, right, .. } => left.symbols().union(right.symbols()),
        }
    }

    /// Every branch carries the sum of its subtrees' frequencies, and no
    /// symbol stands at two leaves.
    pub open spec fn wf(self) -> bool
        decreases self,
    {
        match self {
            Node::Leaf { .. } => true,
            Node::Branch { frequency, left, right } => {
                &&& left.wf()
                &&& right.wf()
                &&& frequency == left.weight() + right.weight()
                &&& left.symbols().disjoint(right.symbols())
            },
        }
    }

    /// Every leaf carries the number of times its symbol occurs in `s`.
    pub open spec fn tallies(self, s: Seq<char>) -> bool
        decreases self,
    {
        match self {
            Node::Leaf { symbol, frequency } => frequency == crate::tally::occurrences(s, symbol),
            Node::Branch { left, right, .. } => left.tallies(s) && right.tallies(s),
        }
    }

    /// Every leaf stands in `items`, with its symbol and its frequency.
    pub open spec fn leaves_in(self, items: Seq<(char, usize)>) -> bool
        decreases self,
    {
        match self {
            Node::Leaf { symbol, frequency } => items.contains((symbol, frequency)),
            Node::Branch { left, right, .. } => left.leaves_in(items) && right.leaves_in(items),
        }
    }

    /// The way from the node down to the leaf of `c`. (For a symbol that is
    /// not below the node, the way to its rightmost leaf.)
    pub open spec fn path_to(self, c: char) -> Seq<Direction>
        decreases self,
    {
        match self {
            Node::Leaf { .. } => Seq::empty(),
            Node::Branch { left, right, .. } => if left.symbols().contains(c) {
                seq![Direction::Left] + left.path_to(c)
            } else {
                seq![Direction::Right] + right.path_to(c)
            },
        }
    }

    /// The bits of [`Node::path_to`].
    pub open spec fn code(self, c: char) -> Seq<bool>
        decreases self,
    {
        match self {
            Node::Leaf { .. } => Seq::empty(),
            Node::Branch { left, right, .. } => if left.symbols().contains(c) {
                seq![false] + left.code(c)
            } else {
                seq![true] + right.code(c)
            },
        }
    }

    /// The subtree that a bit leads to: left on 0, right on 1. A leaf has
    /// none, and stands for itself.
    pub open spec fn child(self, bit: bool) -> Node {
        match self {
            Node::Leaf { .. } => self,
            Node::Branch { left, right, .. } => if bit {
                *right
            } else {
                *left
            },
        }
    }

    /// The frequency that the node carries.
    pub fn frequency(&self) -> (f: usize)
        ensures
            f == self.weight(),
    {
        match self {
            Node::Leaf { frequency, .. } => *frequency,
            Node::Branch { frequency, .. } => *frequency,
        }
    }
}

/// The bits of a sequence of directions.
pub open spec fn bits_of_path(p: Seq<Direction>) -> Seq<bool> {
    Seq::new(p.len(), |i: int| p[i].bit())
}

/// The symbols read from `bits` on a walk that stands at the branch `cur` of
/// the tree `root`: each bit leads to a subtree; on reaching a leaf its symbol
/// is read and the walk starts again at `root`. Bits that end below a branch
/// give nothing.
pub open spec fn walk(root: Node, cur: Node, bits: Seq<bool>) -> Seq<char>
    decreases bits.len(),
{
    if bits.len() == 0 {
        Seq::empty()
    } else {
        match cur.child(bits[0]) {
            Node::Leaf { symbol, .. } => seq![symbol] + walk(root, root, bits.drop_first()),
            next => walk(root, next, bits.drop_first()),
        }
    }
}

/// A node's code for a symbol is its path, written in bits.
pub proof fn lemma_code_is_path(n: Node, c: char)
    ensures
        n.code(c) == bits_of_path(n.path_to(c)),
    decreases n,
{
    match n {
        Node::Leaf { .. } => {
            assert(n.code(c) =~= bits_of_path(n.path_to(c)));
        },
        Node::Branch { left, right, .. } => {
            lemma_code_is_path(*left, c);
            lemma_code_is_path(*right, c);
            assert(n.code(c) =~= bits_of_path(n.path_to(c)));
        },
    }
}

/// Walking from a branch along the code of one of its symbols, with more bits
/// behind it, reads that symbol first and goes on from the root with the rest.
pub proof fn lemma_walk_code(root: Node, cur: Node, c: char, rest: Seq<bool>)
    requires
        cur is Branch,
        cur.symbols().contains(c),
    ensures
        walk(root, cur, cur.code(c) + rest) == seq![c] + walk(root, root, rest),
    decreases cur,
{
    let bits = cur.code(c) + rest;
    let next = cur.child(bits[0]);
    assert(next.symbols().contains(c));
    assert(bits.drop_first() =~= next.code(c) + rest);
    if next is Branch {
        lemma_walk_code(root, next, c, rest);
    }
}

/// Walking from a branch along a proper beginning of the code of one of its
/// symbols reads nothing.
pub proof fn lemma_walk_partial(root: Node, cur: Node, c: char, part: Seq<bool>)
    requires
        cur is Branch,
        cur.symbols().contains(c),
        part.len() < cur.code(c).len(),
        part == cur.code(c).subrange(0, part.len() as int),
    ensures
        walk(root, cur, part) == Seq::<char>::empty(),
    decreases cur,
{
    if part.len() > 0 {
        let code = cur.code(c);
        let next = cur.child(part[0]);
        assert(part[0] == code[0]);
        assert(next.symbols().contains(c));
        assert(code.drop_first() =~= next.code(c));
        assert(part.drop_first() =~= next.code(c).subrange(0, part.len() - 1));
        if next is Branch {
            lemma_walk_partial(root, next, c, part.drop_first());
        }
    }
}

/// Below one node, the code of a symbol does not begin the code of another.
pub proof fn lemma_code_prefix_free(n: Node, a: char, b: char)
    requires
        n.symbols().contains(a),
        n.symbols().contains(b),
        a != b,
    ensures
        !n.code(a).is_prefix_of(n.code(b)),
    decreases n,
{
    match n {
        Node::Leaf { .. } => {},
        Node::Branch { left, right, .. } => {
            let ca = n.code(a);
            let cb = n.code(b);
            if ca.is_prefix_of(cb) {
                assert(ca[0] == cb.subrange(0, ca.len() as int)[0]);
                let sub = n.child(ca[0]);
                assert(sub.symbols().contains(a));
                assert(sub.symbols().contains(b));
                assert(ca.drop_first() =~= sub.code(a));
                assert(cb.drop_first() =~= sub.code(b));
                lemma_code_prefix_free(sub, a, b);
                assert(sub.code(a) =~= sub.code(b).subrange(0, sub.code(a).len() as int));
            }
        },
    }
}

/// Leaves taken from a table whose counts are numbers of occurrences in `s`
/// carry those numbers.
pub proof fn lemma_leaves_tally(n: Node, items: Seq<(char, usize)>, s: Seq<char>)
    requires
        n.leaves_in(items),
        forall|k: int|
            0 <= k < items.len() ==> (#[trigger] items[k]).1 == crate::tally::occurrences(
                s,
                items[k].0,
            ),
    ensures
        n.tallies(s),
    decreases n,
{
    match n {
        Node::Leaf { symbol, frequency } => {
            let k = choose|k: int| 0 <= k < items.len() && items[k] == (symbol, frequency);
            assert(items[k].0 == symbol);
        },
        Node::Branch { left, right, .. } => {
            lemma_leaves_tally(*left, items, s);
            lemma_leaves_tally(*right, items, s);
        },
    }
}

/// Every node has a symbol below it: the one at its leftmost leaf.
pub proof fn lemma_some_symbol(n: Node) -> (c: char)
    ensures
        n.symbols().contains(c),
    decreases n,
{
    match n {
        Node::Leaf { symbol, .. } => symbol,
        Node::Branch { left, .. } => lemma_some_symbol(*left),
    }
}

} // verus!
