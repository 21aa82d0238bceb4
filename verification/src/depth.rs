//! Why the greedy reduction puts frequent symbols high: nodes leave the
//! queue lightest first, and what leaves earlier ends up at least as deep.

use vstd::prelude::*;
use crate::forest::{
    first_min, huffman, join, leaves, lemma_first_min, lemma_leaves, lemma_remove,
    merge_step, separate, total_weight,
};
use crate::node::Node;
use crate::tally::{distinct_symbols, total_count};

verus! {

/// Whether the node at `i` leaves the queue `q` no later than the one at `j`:
/// it is lighter, or as light and not behind it.
pub open spec fn leaves_before(q: Seq<Node>, i: int, j: int) -> bool {
    q[i].weight() < q[j].weight() || (q[i].weight() == q[j].weight() && i <= j)
}

/// How far the node `n`, which holds the symbol `c`, hangs below the root of
/// the tree `t` that it is part of.
pub open spec fn rise(t: Node, n: Node, c: char) -> int {
    t.code(c).len() - n.code(c).len()
}

/// No branch of the queue is heavier than two other nodes of it together.
pub open spec fn light_branches(q: Seq<Node>) -> bool {
    forall|k: int, i: int, j: int|
        0 <= k < q.len() && 0 <= i < q.len() && 0 <= j < q.len() && i != j && i != k && j != k
            && (#[trigger] q[k]) is Branch ==> q[k].weight() <= (#[trigger] q[i]).weight() + (
        #[trigger] q[j]).weight()
}

/// In the tree `t`, a node of the queue that leaves no later than another
/// hangs at least as deep.
pub open spec fn earlier_is_deeper(q: Seq<Node>, t: Node) -> bool {
    forall|i: int, j: int, c: char, d: char|
        0 <= i < q.len() && 0 <= j < q.len() && leaves_before(q, i, j)
            && #[trigger] q[i].symbols().contains(c) && #[trigger] q[j].symbols().contains(d)
            ==> rise(t, q[j], d) <= rise(t, q[i], c)
}

/// In the tree `t`, no node of the queue hangs more than one step deeper
/// than a branch of the queue.
pub open spec fn branches_are_deep(q: Seq<Node>, t: Node) -> bool {
    forall|k: int, i: int, c: char, d: char|
        0 <= k < q.len() && 0 <= i < q.len() && i != k && q[k] is Branch
            && #[trigger] q[i].symbols().contains(c) && #[trigger] q[k].symbols().contains(d)
            ==> rise(t, q[i], c) <= rise(t, q[k], d) + 1
}

/// The position in `q` of the node that stands at `m` once the node at `i`
/// is taken out.
pub open spec fn skip(i: int, m: int) -> int {
    if m < i {
        m
    } else {
        m + 1
    }
}

/// The position, once the node at `i` is taken out, of the node that stands
/// at `x` in `q`.
pub open spec fn unskip(i: int, x: int) -> int {
    if x < i {
        x
    } else {
        x - 1
    }
}

/// The position in `q` of the node that leaves second in a step.
pub open spec fn second_min(q: Seq<Node>) -> int {
    skip(first_min(q), first_min(q.remove(first_min(q))))
}

/// The position after a step of the node that stands at `x` in `q` and stays.
pub open spec fn place(q: Seq<Node>, x: int) -> int {
    unskip(first_min(q.remove(first_min(q))), unskip(first_min(q), x))
}

/// The position in `q` of the node that stands at `m` after a step.
pub open spec fn origin(q: Seq<Node>, m: int) -> int {
    skip(first_min(q), skip(first_min(q.remove(first_min(q))), m))
}

/// What a step does to a queue: the two lightest nodes leave, the others
/// keep their order, and the branch over the two comes last.
pub open spec fn step_shape(q: Seq<Node>) -> bool {
    let p = merge_step(q);
    let i = first_min(q);
    let ir = second_min(q);
    &&& 0 <= i < q.len()
    &&& 0 <= ir < q.len()
    &&& i != ir
    &&& p.len() == q.len() - 1
    &&& p[p.len() - 1] == join(q[i], q[ir])
    &&& p[p.len() - 1] is Branch
    &&& p[p.len() - 1].weight() == q[i].weight() + q[ir].weight()
    &&& q[i].symbols().disjoint(q[ir].symbols())
    &&& q[i].weight() <= q[ir].weight()
    &&& forall|x: int|
        0 <= x < q.len() && x != i && x != ir ==> 0 <= #[trigger] place(q, x) < p.len() - 1
            && p[place(q, x)] == q[x]
    &&& forall|x: int|
        0 <= x < q.len() && x != i && x != ir ==> q[ir].weight() <= (#[trigger] q[x]).weight() && (
        x < ir ==> q[ir].weight() < q[x].weight()) && (x < i ==> q[i].weight() < q[x].weight())
    &&& forall|x: int, y: int|
        0 <= x < y < q.len() && x != i && x != ir && y != i && y != ir ==> #[trigger] place(q, x)
            < #[trigger] place(q, y)
    &&& forall|m: int|
        0 <= m < p.len() - 1 ==> 0 <= #[trigger] origin(q, m) < q.len() && origin(q, m) != i
            && origin(q, m) != ir && p[m] == q[origin(q, m)]
}

/// Where the nodes of a queue stand once two of them are taken out, one
/// after the other.
pub proof fn lemma_two_removed(q: Seq<Node>, i: int, j: int)
    requires
        0 <= i < q.len(),
        0 <= j < q.len() - 1,
    ensures
        q.remove(i)[j] == q[skip(i, j)],
        q.remove(i).remove(j).len() == q.len() - 2,
        forall|x: int|
            0 <= x < q.len() && x != i && x != skip(i, j) ==> 0 <= unskip(j, unskip(i, x))
                < q.len() - 2 && q.remove(i).remove(j)[unskip(j, unskip(i, x))] == #[trigger] q[x]
                && q.remove(i)[unskip(i, x)] == q[x],
        forall|m: int|
            0 <= m < q.len() - 2 ==> 0 <= skip(i, skip(j, m)) < q.len() && skip(i, skip(j, m)) != i
                && skip(i, skip(j, m)) != skip(i, j) && #[trigger] q.remove(i).remove(j)[m]
                == q[skip(i, skip(j, m))],
{
    let q1 = q.remove(i);
    let q2 = q1.remove(j);
    assert forall|x: int| 0 <= x < q.len() && x != i && x != skip(i, j) implies 0 <= unskip(
        j,
        unskip(i, x),
    ) < q.len() - 2 && q2[unskip(j, unskip(i, x))] == #[trigger] q[x] && q1[unskip(i, x)]
        == q[x] by {
        let x1 = unskip(i, x);
        assert(q1[x1] == q[x]);
        assert(q2[unskip(j, x1)] == q1[x1]);
    }
    assert forall|m: int| 0 <= m < q.len() - 2 implies 0 <= skip(i, skip(j, m)) < q.len() && skip(
        i,
        skip(j, m),
    ) != i && skip(i, skip(j, m)) != skip(i, j) && #[trigger] q2[m] == q[skip(i, skip(j, m))] by {
        assert(q2[m] == q1[skip(j, m)]);
        assert(q1[skip(j, m)] == q[skip(i, skip(j, m))]);
    }
}

/// A step keeps what the queue weighs and that its nodes share no symbol,
/// and the tree that the reduction makes of it; the two nodes that leave
/// share no symbol either.
pub proof fn lemma_step_keeps(q: Seq<Node>)
    requires
        q.len() > 1,
        separate(q),
    ensures
        separate(merge_step(q)),
        total_weight(merge_step(q)) + 0 == total_weight(q) + join(
            q[first_min(q)],
            q[second_min(q)],
        ).weight() - q[first_min(q)].weight() - q[second_min(q)].weight(),
        total_weight(q) >= q[first_min(q)].weight() + q[second_min(q)].weight(),
        huffman(q) == huffman(merge_step(q)),
        q[first_min(q)].symbols().disjoint(q[second_min(q)].symbols()),
{
    let i = first_min(q);
    lemma_first_min(q);
    let q1 = q.remove(i);
    let j = first_min(q1);
    lemma_first_min(q1);
    let q2 = q1.remove(j);
    let b = join(q[i], q1[j]);
    let p = q2.push(b);
    lemma_remove(q, i);
    lemma_remove(q1, j);
    lemma_two_removed(q, i, j);
    assert(p.drop_last() =~= q2);
    assert(p.last() == b);
}

/// A step has the shape that `step_shape` describes.
pub proof fn lemma_step(q: Seq<Node>)
    requires
        q.len() > 1,
        separate(q),
        total_weight(q) <= usize::MAX,
    ensures
        step_shape(q),
{
    let i = first_min(q);
    lemma_first_min(q);
    let q1 = q.remove(i);
    let j = first_min(q1);
    lemma_first_min(q1);
    let ir = skip(i, j);
    let p = merge_step(q);
    lemma_two_removed(q, i, j);
    lemma_step_keeps(q);
    assert(p.len() == q.len() - 1);
    assert(p[p.len() - 1] == join(q[i], q[ir]));
    assert forall|x: int| 0 <= x < q.len() && x != i && x != ir implies 0 <= #[trigger] place(
        q,
        x,
    ) < p.len() - 1 && p[place(q, x)] == q[x] by {
        assert(q1.remove(j)[unskip(j, unskip(i, x))] == q[x]);
    }
    assert forall|x: int| 0 <= x < q.len() && x != i && x != ir implies q[ir].weight() <= (
    #[trigger] q[x]).weight() && (x < ir ==> q[ir].weight() < q[x].weight()) && (x < i
        ==> q[i].weight() < q[x].weight()) by {
        assert(q1[unskip(i, x)] == q[x]);
    }
    assert forall|m: int| 0 <= m < p.len() - 1 implies 0 <= #[trigger] origin(q, m) < q.len()
        && origin(q, m) != i && origin(q, m) != ir && p[m] == q[origin(q, m)] by {
        assert(p[m] == q1.remove(j)[m]);
    }
}

/// A step keeps the branches light.
pub proof fn lemma_step_light(q: Seq<Node>)
    requires
        q.len() > 1,
        step_shape(q),
        light_branches(q),
    ensures
        light_branches(merge_step(q)),
{
    let p = merge_step(q);
    let i = first_min(q);
    let ir = second_min(q);
    let last = p.len() - 1;
    assert forall|k: int, x: int, y: int|
        0 <= k < p.len() && 0 <= x < p.len() && 0 <= y < p.len() && x != y && x != k && y != k && (
        #[trigger] p[k]) is Branch implies p[k].weight() <= (#[trigger] p[x]).weight() + (
    #[trigger] p[y]).weight() by {
        let k0 = origin(q, k);
        let x0 = origin(q, x);
        let y0 = origin(q, y);
        if k == last {
            assert(p[x] == q[x0] && p[y] == q[y0]);
        } else if x == last || y == last {
            assert(p[k] == q[k0]);
            assert(q[k0].weight() <= q[i].weight() + q[ir].weight());
        } else {
            assert(p[k] == q[k0] && p[x] == q[x0] && p[y] == q[y0]);
            assert(q[k0].weight() <= q[x0].weight() + q[y0].weight());
        }
    }
}

/// The two nodes that leave in a step hang one step below the new branch.
pub proof fn lemma_step_rise(q: Seq<Node>, t: Node, x: int, c: char)
    requires
        q.len() > 1,
        step_shape(q),
        x == first_min(q) || x == second_min(q),
        q[x].symbols().contains(c),
    ensures
        merge_step(q)[q.len() - 2].symbols().contains(c),
        rise(t, q[x], c) == rise(t, merge_step(q)[q.len() - 2], c) + 1,
{
}

/// Where the depths are in order after a step, they were so before it.
pub proof fn lemma_step_earlier(q: Seq<Node>, t: Node, x: int, y: int, c: char, d: char)
    requires
        q.len() > 1,
        step_shape(q),
        earlier_is_deeper(merge_step(q), t),
        branches_are_deep(merge_step(q), t),
        0 <= x < q.len(),
        0 <= y < q.len(),
        leaves_before(q, x, y),
        q[x].symbols().contains(c),
        q[y].symbols().contains(d),
    ensures
        rise(t, q[y], d) <= rise(t, q[x], c),
{
    let p = merge_step(q);
    let i = first_min(q);
    let ir = second_min(q);
    let last = p.len() - 1;
    let mx = place(q, x);
    let my = place(q, y);
    if x == i || x == ir {
        lemma_step_rise(q, t, x, c);
        if y == i || y == ir {
            lemma_step_rise(q, t, y, d);
            assert(leaves_before(p, last, last));
        } else {
            assert(p[my] == q[y]);
            assert(p[my].symbols().contains(d));
        }
    } else {
        assert(p[mx] == q[x]);
        assert(p[mx].symbols().contains(c));
        if y == i || y == ir {
            assert(false);
        } else {
            assert(p[my] == q[y]);
            assert(p[my].symbols().contains(d));
            assert(x <= y ==> mx <= my);
            assert(leaves_before(p, mx, my));
        }
    }
}

/// Where the depths are in order after a step, no node hung more than one
/// step below a branch before it.
pub proof fn lemma_step_branches(q: Seq<Node>, t: Node, k: int, x: int, c: char, d: char)
    requires
        q.len() > 1,
        step_shape(q),
        light_branches(q),
        earlier_is_deeper(merge_step(q), t),
        branches_are_deep(merge_step(q), t),
        0 <= k < q.len(),
        0 <= x < q.len(),
        x != k,
        q[k] is Branch,
        q[x].symbols().contains(c),
        q[k].symbols().contains(d),
    ensures
        rise(t, q[x], c) <= rise(t, q[k], d) + 1,
{
    let p = merge_step(q);
    let i = first_min(q);
    let ir = second_min(q);
    let last = p.len() - 1;
    let mx = place(q, x);
    let mk = place(q, k);
    if k == i || k == ir {
        lemma_step_rise(q, t, k, d);
        if x == i || x == ir {
            lemma_step_rise(q, t, x, c);
            assert(leaves_before(p, last, last));
        } else {
            assert(p[mx] == q[x]);
            assert(p[mx].symbols().contains(c));
        }
    } else {
        assert(p[mk] == q[k]);
        assert(p[mk].symbols().contains(d));
        if x == i || x == ir {
            lemma_step_rise(q, t, x, c);
            assert(q[k].weight() <= q[i].weight() + q[ir].weight());
            assert(leaves_before(p, mk, last));
        } else {
            assert(p[mx] == q[x]);
            assert(p[mx].symbols().contains(c));
        }
    }
}

/// The reduction keeps the depths in the order in which the nodes leave the
/// queue.
pub proof fn lemma_depths(q: Seq<Node>)
    requires
        q.len() >= 1,
        separate(q),
        total_weight(q) <= usize::MAX,
        light_branches(q),
    ensures
        earlier_is_deeper(q, huffman(q)),
        branches_are_deep(q, huffman(q)),
    decreases q.len(),
{
    let t = huffman(q);
    if q.len() > 1 {
        lemma_step(q);
        lemma_step_keeps(q);
        lemma_step_light(q);
        lemma_depths(merge_step(q));
        assert forall|x: int, y: int, c: char, d: char|
            0 <= x < q.len() && 0 <= y < q.len() && leaves_before(q, x, y)
                && #[trigger] q[x].symbols().contains(c) && #[trigger] q[y].symbols().contains(
                d,
            ) implies rise(t, q[y], d) <= rise(t, q[x], c) by {
            lemma_step_earlier(q, t, x, y, c, d);
        }
        assert forall|k: int, x: int, c: char, d: char|
            0 <= k < q.len() && 0 <= x < q.len() && x != k && q[k] is Branch
                && #[trigger] q[x].symbols().contains(c) && #[trigger] q[k].symbols().contains(
                d,
            ) implies rise(t, q[x], c) <= rise(t, q[k], d) + 1 by {
            lemma_step_branches(q, t, k, x, c, d);
        }
    }
}

/// In the tree that the reduction makes of a frequency table, a symbol with
/// a higher count has a code no longer than a symbol with a lower count.
pub proof fn lemma_frequent_is_short(items: Seq<(char, usize)>, x: int, y: int)
    requires
        distinct_symbols(items),
        total_count(items) <= usize::MAX,
        0 <= x < items.len(),
        0 <= y < items.len(),
        items[x].1 > items[y].1,
    ensures
        huffman(leaves(items)).code(items[x].0).len() <= huffman(leaves(items)).code(
            items[y].0,
        ).len(),
{
    let q = leaves(items);
    let t = huffman(q);
    lemma_leaves(items);
    lemma_depths(q);
    assert(leaves_before(q, y, x));
    assert(q[y].symbols().contains(items[y].0));
    assert(q[x].symbols().contains(items[x].0));
    assert(rise(t, q[x], items[x].0) <= rise(t, q[y], items[y].0));
}

} // verus!
