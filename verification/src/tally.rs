//! Frequency counting with the `counter` crate.

use vstd::prelude::*;
use counter::Counter;

verus! {

/// The multiset counter `counter::Counter`, carried through as an opaque type.
#[verifier::external_type_specification]
#[verifier::external_body]
#[verifier::reject_recursive_types(T)]
#[verifier::reject_recursive_types(N)]
pub struct ExCounter<T: std::hash::Hash + Eq, N>(Counter<T, N>);

/// What a counter holds: each counted symbol with its count.
pub uninterp spec fn tally_of(c: Counter<char, usize>) -> Map<char, nat>;

/// How often `c` occurs in `s`.
pub open spec fn occurrences(s: Seq<char>, c: char) -> nat
    decreases s.len(),
{
    if s.len() == 0 {
        0
    } else {
        occurrences(s.drop_last(), c) + if s.last() == c { 1nat } else { 0nat }
    }
}

/// The frequency table of `s`: the symbols that occur in it, each with the
/// number of its occurrences.
pub open spec fn frequencies(s: Seq<char>) -> Map<char, nat> {
    Map::new(|c: char| s.contains(c), |c: char| occurrences(s, c))
}

/// Collecting symbols into a `Counter` (`FromIterator`): every symbol of the
/// source is entered with the number of times it occurs there, and nothing
/// else is.
#[verifier::external_body]
pub(crate) fn count_symbols(source: &Vec<char>) -> (c: Counter<char, usize>)
    ensures
        tally_of(c) == frequencies(source@),
{
    source.iter().cloned().collect::<Counter<char, usize>>()
}

/// `HashMap::is_empty`, reached through the counter: whether nothing was
/// counted.
#[verifier::external_body]
pub(crate) fn tally_is_empty(c: &Counter<char, usize>) -> (e: bool)
    ensures
        e <==> tally_of(*c).dom() =~= Set::<char>::empty(),
{
    c.is_empty()
}

/// Walking a counter (`IntoIterator for &Counter`): each counted symbol comes
/// once, with its count. The order is that of the underlying hash map, of
/// which nothing is claimed.
#[verifier::external_body]
pub(crate) fn tally_items(c: &Counter<char, usize>) -> (items: Vec<(char, usize)>)
    ensures
        forall|i: int, j: int| 0 <= i < j < items@.len() ==> items@[i].0 != items@[j].0,
        forall|i: int| 0 <= i < items@.len() ==> tally_of(*c).contains_pair(
            (#[trigger] items@[i]).0,
            items@[i].1 as nat,
        ),
        forall|k: char| tally_of(*c).dom().contains(k) ==> exists|i: int|
            0 <= i < items@.len() && (#[trigger] items@[i]).0 == k,
{
    c.into_iter().map(|item| (*item.0, *item.1)).collect()
}

/// Whether `items` has an entry for the symbol `c`.
pub open spec fn lists(items: Seq<(char, usize)>, c: char) -> bool {
    exists|k: int| 0 <= k < items.len() && (#[trigger] items[k]).0 == c
}

/// No symbol has two entries in `items`.
pub open spec fn distinct_symbols(items: Seq<(char, usize)>) -> bool {
    forall|i: int, j: int| 0 <= i < j < items.len() ==> items[i].0 != items[j].0
}

/// The sum of the counts in `items`.
pub open spec fn total_count(items: Seq<(char, usize)>) -> nat
    decreases items.len(),
{
    if items.len() == 0 {
        0
    } else {
        total_count(items.drop_last()) + items.last().1 as nat
    }
}

/// Whether `items` is a frequency table of `s`: one entry for each symbol
/// that occurs in `s`, with the number of its occurrences.
pub open spec fn is_table_of(items: Seq<(char, usize)>, s: Seq<char>) -> bool {
    &&& distinct_symbols(items)
    &&& forall|k: int|
        0 <= k < items.len() ==> s.contains((#[trigger] items[k]).0) && items[k].1 == occurrences(
            s,
            items[k].0,
        )
    &&& forall|i: int| 0 <= i < s.len() ==> lists(items, #[trigger] s[i])
}

/// The sum, over the entries of `items`, of how often the entry's symbol
/// occurs in `s`.
pub open spec fn spread(items: Seq<(char, usize)>, s: Seq<char>) -> nat
    decreases items.len(),
{
    if items.len() == 0 {
        0
    } else {
        spread(items.drop_last(), s) + occurrences(s, items.last().0)
    }
}

/// One more symbol at the end of `s` adds one to the spread of a table that
/// lists it, and nothing to that of a table that does not.
pub proof fn lemma_spread_push(items: Seq<(char, usize)>, s: Seq<char>, x: char)
    requires
        distinct_symbols(items),
    ensures
        spread(items, s.push(x)) == spread(items, s) + if lists(items, x) {
            1nat
        } else {
            0nat
        },
    decreases items.len(),
{
    assert(s.push(x).drop_last() =~= s);
    if items.len() > 0 {
        let front = items.drop_last();
        lemma_spread_push(front, s, x);
        if lists(front, x) {
            let k = choose|k: int| 0 <= k < front.len() && (#[trigger] front[k]).0 == x;
            assert(items[k].0 == x);
            assert(items.last().0 != x);
        } else if items.last().0 == x {
            assert(items[items.len() - 1].0 == x);
        } else if lists(items, x) {
            let k = choose|k: int| 0 <= k < items.len() && (#[trigger] items[k]).0 == x;
            assert(front[k].0 == x);
        }
    }
}

/// The spread of a table with distinct symbols that lists every symbol of
/// `s` is the length of `s`.
pub proof fn lemma_spread_total(items: Seq<(char, usize)>, s: Seq<char>)
    requires
        distinct_symbols(items),
        forall|i: int| 0 <= i < s.len() ==> lists(items, #[trigger] s[i]),
    ensures
        spread(items, s) == s.len(),
    decreases s.len(), items.len(),
{
    if s.len() == 0 {
        if items.len() > 0 {
            lemma_spread_total(items.drop_last(), s);
        }
    } else {
        let front = s.drop_last();
        assert(front.push(s.last()) =~= s);
        assert forall|i: int| 0 <= i < front.len() implies lists(items, #[trigger] front[i]) by {
            assert(front[i] == s[i]);
        }
        lemma_spread_total(items, front);
        lemma_spread_push(items, front, s.last());
    }
}

/// The counts of a frequency table of `s` add up to the length of `s`.
pub proof fn lemma_table_total(items: Seq<(char, usize)>, s: Seq<char>)
    requires
        is_table_of(items, s),
    ensures
        total_count(items) == s.len(),
{
    lemma_counts_spread(items, s);
    lemma_spread_total(items, s);
}

/// Where each entry's count is the number of its symbol's occurrences in
/// `s`, the counts add up to the spread.
pub proof fn lemma_counts_spread(items: Seq<(char, usize)>, s: Seq<char>)
    requires
        forall|k: int| 0 <= k < items.len() ==> (#[trigger] items[k]).1 == occurrences(s, items[k].0),
    ensures
        total_count(items) == spread(items, s),
    decreases items.len(),
{
    if items.len() > 0 {
        let front = items.drop_last();
        assert forall|k: int| 0 <= k < front.len() implies (#[trigger] front[k]).1 == occurrences(
            s,
            front[k].0,
        ) by {
            assert(front[k] == items[k]);
        }
        lemma_counts_spread(front, s);
    }
}

} // verus!
