//! The queue of subtrees from which a Huffman tree grows: what it weighs,
//! which symbols it holds, and the greedy reduction to a single tree.

use vstd::prelude::*;
use crate::node::Node;
use crate::tally::{distinct_symbols, lists, total_count};

verus! {

/// The sum of the frequencies that the nodes of `q` carry.
pub open spec fn total_weight(q: Seq<Node>) -> nat
    decreases q.len(),
{
    if q.len() == 0 {
        0
    } else {
        total_weight(q.drop_last()) + q.last().weight()
    }
}

/// The symbols at the leaves of the nodes of `q`.
pub open spec fn forest_symbols(q: Seq<Node>) -> Set<char>
    decreases q.len(),
{
    if q.len() == 0 {
        Set::empty()
    } else {
        forest_symbols(q.drop_last()).union(q.last().symbols())
    }
}

/// No symbol stands below two nodes of `q`.
pub open spec fn separate(q: Seq<Node>) -> bool
    decreases q.len(),
{
    q.len() == 0 || (separate(q.drop_last()) && forest_symbols(q.drop_last()).disjoint(
        q.last().symbols(),
    ))
}

/// The position of the lightest node of `q`; of several equally light ones,
/// the first.
pub open spec fn first_min(q: Seq<Node>) -> int
    decreases q.len(),
{
    if q.len() <= 1 {
        0
    } else {
        let m = first_min(q.drop_last());
        if q.last().weight() < q[m].weight() {
            q.len() - 1
        } else {
            m
        }
    }
}

/// The branch over `left` and `right`, with the sum of their frequencies.
pub open spec fn join(left: Node, right: Node) -> Node {
    Node::Branch {
        frequency: (left.weight() + right.weight()) as usize,
        left: Box::new(left),
        right: Box::new(right),
    }
}

/// One step of the reduction: the lightest node leaves the queue, then the
/// lightest of the rest; the branch over the two, the first of them on the
/// left, enters at the end.
pub open spec fn merge_step(q: Seq<Node>) -> Seq<Node> {
    let i = first_min(q);
    let rest = q.remove(i);
    let j = first_min(rest);
    rest.remove(j).push(join(q[i], rest[j]))
}

/// The tree that the reduction makes of the queue `q`: steps are taken until
/// one node is left.
pub open spec fn huffman(q: Seq<Node>) -> Node
    decreases q.len(),
    via huffman_decreases
{
    if q.len() <= 1 {
        q[0]
    } else {
        huffman(merge_step(q))
    }
}

#[via_fn]
proof fn huffman_decreases(q: Seq<Node>) {
    if q.len() > 1 {
        lemma_first_min(q);
        lemma_first_min(q.remove(first_min(q)));
    }
}

/// `first_min` points into the queue, at a node that none is lighter than,
/// and every node before it is heavier.
pub proof fn lemma_first_min(q: Seq<Node>)
    requires
        q.len() > 0,
    ensures
        0 <= first_min(q) < q.len(),
        forall|k: int| 0 <= k < q.len() ==> q[first_min(q)].weight() <= (#[trigger] q[k]).weight(),
        forall|k: int| 0 <= k < first_min(q) ==> q[first_min(q)].weight() < (#[trigger] q[k]).weight(),
    decreases q.len(),
{
    if q.len() > 1 {
        lemma_first_min(q.drop_last());
        assert forall|k: int| 0 <= k < q.len() - 1 implies q[k] == q.drop_last()[k] by {}
    }
}

/// What taking a node out of a queue leaves behind.
pub proof fn lemma_remove(q: Seq<Node>, i: int)
    requires
        0 <= i < q.len(),
    ensures
        total_weight(q) == total_weight(q.remove(i)) + q[i].weight(),
        forest_symbols(q) == forest_symbols(q.remove(i)).union(q[i].symbols()),
        separate(q) ==> separate(q.remove(i)) && forest_symbols(q.remove(i)).disjoint(
            q[i].symbols(),
        ),
    decreases q.len(),
{
    let r = q.remove(i);
    if i == q.len() - 1 {
        assert(r =~= q.drop_last());
    } else {
        let d = q.drop_last();
        assert(r.drop_last() =~= d.remove(i));
        assert(r.last() == q.last());
        assert(d[i] == q[i]);
        lemma_remove(d, i);
        assert(forest_symbols(q) =~= forest_symbols(r).union(q[i].symbols()));
    }
}

/// The position of the lightest node of the queue; of several equally light
/// ones, the one that entered first.
pub fn min_index(queue: &Vec<Node>) -> (best: usize)
    requires
        queue@.len() > 0,
    ensures
        best == first_min(queue@),
        best < queue@.len(),
        forall|k: int| 0 <= k < queue@.len() ==> queue@[best as int].weight() <= (#[trigger] queue@[k]).weight(),
        forall|k: int| 0 <= k < best ==> queue@[best as int].weight() < (#[trigger] queue@[k]).weight(),
{
    let mut best: usize = 0;
    let mut i: usize = 1;
    assert(queue@.subrange(0, 1).len() == 1);
    while i < queue.len()
        invariant
            1 <= i <= queue@.len(),
            best < i,
            best == first_min(queue@.subrange(0, i as int)),
        decreases queue@.len() - i,
    {
        let ghost seen = queue@.subrange(0, i + 1);
        assert(seen.drop_last() =~= queue@.subrange(0, i as int));
        assert(seen.last() == queue@[i as int]);
        assert(seen[best as int] == queue@[best as int]);
        if queue[i].frequency() < queue[best].frequency() {
            best = i;
        }
        i += 1;
    }
    proof {
        assert(queue@.subrange(0, i as int) =~= queue@);
        lemma_first_min(queue@);
    }
    best
}

/// The leaf that an entry of a frequency table stands for.
pub open spec fn leaf_of(item: (char, usize)) -> Node {
    Node::Leaf { symbol: item.0, frequency: item.1 }
}

/// The queue that the reduction starts from: one leaf for each entry of
/// `items`, in their order.
pub open spec fn leaves(items: Seq<(char, usize)>) -> Seq<Node> {
    Seq::new(items.len(), |k: int| leaf_of(items[k]))
}

/// The symbols that `items` has an entry for.
pub open spec fn symbols_of(items: Seq<(char, usize)>) -> Set<char> {
    Set::new(|c: char| lists(items, c))
}

/// The starting queue weighs what the table counts and holds the table's
/// symbols, each once where the table lists each once.
pub proof fn lemma_leaves(items: Seq<(char, usize)>)
    ensures
        total_weight(leaves(items)) == total_count(items),
        forest_symbols(leaves(items)) == symbols_of(items),
        distinct_symbols(items) ==> separate(leaves(items)),
    decreases items.len(),
{
    if items.len() == 0 {
        assert(forest_symbols(leaves(items)) =~= symbols_of(items));
    } else {
        let front = items.drop_last();
        let last = items.last();
        lemma_leaves(front);
        assert(leaves(items).drop_last() =~= leaves(front));
        assert(leaves(items).last() == leaf_of(last));
        assert forall|c: char| symbols_of(items).contains(c) <==> (symbols_of(front).contains(c)
            || c == last.0) by {
            if lists(front, c) {
                let k = choose|k: int| 0 <= k < front.len() && (#[trigger] front[k]).0 == c;
                assert(items[k].0 == c);
            }
            if c == last.0 {
                assert(items[items.len() - 1].0 == c);
            }
            if lists(items, c) && c != last.0 {
                let k = choose|k: int| 0 <= k < items.len() && (#[trigger] items[k]).0 == c;
                assert(front[k].0 == c);
            }
        }
        assert(forest_symbols(leaves(items)) =~= symbols_of(items));
        if distinct_symbols(items) {
            if lists(front, last.0) {
                let k = choose|k: int| 0 <= k < front.len() && (#[trigger] front[k]).0 == last.0;
                assert(items[k].0 == items[items.len() - 1].0);
            }
            assert forall|i: int, j: int| 0 <= i < j < front.len() implies front[i].0
                != front[j].0 by {
                assert(front[i] == items[i] && front[j] == items[j]);
            }
        }
    }
}

} // verus!
