//! Ranking: arranging positions by falling count, so that the words counted
//! most often come first and words counted equally often keep their order.

use vstd::prelude::*;
use vstd::relations::{sorted_by, total_ordering};
use vstd::seq_lib::{group_to_multiset_ensures, lemma_multiset_commutative, lemma_sorted_unique};
use crate::frequency::{distinct_words, entry_index, total, Entry};

verus! {

/// The count at position `p`; zero where `counts` has no such position.
pub open spec fn count_at(counts: Seq<nat>, p: int) -> nat {
    if 0 <= p < counts.len() {
        counts[p]
    } else {
        0
    }
}

/// Whether position `a` ranks no later than position `b`: it has the higher
/// count, or the same count and does not come after `b`.
pub open spec fn ranks_first(counts: Seq<nat>, a: int, b: int) -> bool {
    count_at(counts, a) > count_at(counts, b) || (count_at(counts, a) == count_at(counts, b) && a
        <= b)
}

/// `ranks_first` over `counts`, as a relation between positions.
pub open spec fn rank_relation(counts: Seq<nat>) -> spec_fn(int, int) -> bool {
    |a: int, b: int| ranks_first(counts, a, b)
}

/// The positions from `lo` up to, but without, `hi`, in rising order.
pub open spec fn positions(lo: int, hi: int) -> Seq<int> {
    Seq::new((hi - lo) as nat, |i: int| lo + i)
}

/// The positions of `counts` in ranking order: sorted by falling count,
/// positions of equal count in rising order.
pub open spec fn rank_order(counts: Seq<nat>) -> Seq<int> {
    positions(0, counts.len() as int).sort_by(rank_relation(counts))
}

/// The counts of `entries`, one for one.
pub open spec fn counts_of(entries: Seq<Entry>) -> Seq<nat> {
    entries.map_values(|e: Entry| e.count)
}

/// The ranked list of `entries`: the same entries, sorted by falling count;
/// entries of equal count stay in the order that they have in `entries`.
pub open spec fn ranking(entries: Seq<Entry>) -> Seq<Entry> {
    rank_order(counts_of(entries)).map_values(|p: int| entries[p])
}

/// The counts as natural numbers.
pub open spec fn nats(counts: Seq<u32>) -> Seq<nat> {
    counts.map_values(|c: u32| c as nat)
}

/// The positions as integers.
pub open spec fn ints(order: Seq<usize>) -> Seq<int> {
    order.map_values(|p: usize| p as int)
}

/// Ranking compares any two positions, and orders them without a cycle.
pub proof fn lemma_rank_relation_total(counts: Seq<nat>)
    ensures
        total_ordering(rank_relation(counts)),
{
    let r = rank_relation(counts);
    assert forall|x: int| #[trigger] r(x, x) by {}
    assert forall|x: int, y: int| #[trigger] r(x, y) && #[trigger] r(y, x) implies x == y by {}
    assert forall|x: int, y: int, z: int| #[trigger] r(x, y) && #[trigger] r(y, z) implies r(
        x,
        z,
    ) by {}
    assert forall|x: int, y: int| #[trigger] r(x, y) || #[trigger] r(y, x) by {}
}

/// `rank_order` arranges all positions, each exactly once, by falling count,
/// and positions of equal count in rising order.
pub proof fn lemma_rank_order(counts: Seq<nat>)
    ensures
        rank_order(counts).len() == counts.len(),
        rank_order(counts).no_duplicates(),
        rank_order(counts).to_multiset() == positions(0, counts.len() as int).to_multiset(),
        forall|k: int|
            0 <= k < counts.len() ==> 0 <= #[trigger] rank_order(counts)[k] < counts.len(),
        forall|p: int| 0 <= p < counts.len() ==> rank_order(counts).contains(p),
        forall|i: int, j: int|
            0 <= i < j < counts.len() ==> ranks_first(
                counts,
                #[trigger] rank_order(counts)[i],
                #[trigger] rank_order(counts)[j],
            ),
{
    broadcast use group_to_multiset_ensures;

    let all = positions(0, counts.len() as int);
    let order = rank_order(counts);
    let r = rank_relation(counts);
    lemma_rank_relation_total(counts);
    all.lemma_sort_by_ensures(r);
    assert(order.len() == order.to_multiset().len());
    assert(all.len() == all.to_multiset().len());
    all.lemma_multiset_has_no_duplicates();
    order.lemma_multiset_has_no_duplicates_conv();
    assert forall|k: int| 0 <= k < counts.len() implies 0 <= #[trigger] order[k]
        < counts.len() by {
        assert(order.contains(order[k]));
        assert(order.to_multiset().count(order[k]) > 0);
        assert(all.contains(order[k]));
    }
    assert forall|p: int| 0 <= p < counts.len() implies order.contains(p) by {
        assert(all[p] == p);
        assert(all.contains(p));
        assert(all.to_multiset().count(p) > 0);
    }
    assert forall|i: int, j: int| 0 <= i < j < counts.len() implies ranks_first(
        counts,
        #[trigger] order[i],
        #[trigger] order[j],
    ) by {
        assert(r(order[i], order[j]));
    }
}

/// Only one arrangement of the positions is in ranking order.
pub proof fn lemma_rank_order_unique(order: Seq<int>, counts: Seq<nat>)
    requires
        order.no_duplicates(),
        forall|k: int| 0 <= k < order.len() ==> 0 <= #[trigger] order[k] < counts.len(),
        forall|p: int| 0 <= p < counts.len() ==> order.contains(p),
        forall|i: int, j: int|
            0 <= i < j < order.len() ==> ranks_first(
                counts,
                #[trigger] order[i],
                #[trigger] order[j],
            ),
    ensures
        order == rank_order(counts),
{
    broadcast use group_to_multiset_ensures;

    let all = positions(0, counts.len() as int);
    let r = rank_relation(counts);
    lemma_rank_relation_total(counts);
    all.lemma_sort_by_ensures(r);
    all.lemma_multiset_has_no_duplicates();
    order.lemma_multiset_has_no_duplicates();
    assert forall|p: int| order.to_multiset().count(p) == all.to_multiset().count(p) by {
        if 0 <= p < counts.len() {
            assert(all[p] == p);
            assert(all.contains(p));
            assert(order.contains(p));
        } else {
            if order.contains(p) {
                let k = choose|k: int| 0 <= k < order.len() && order[k] == p;
                assert(0 <= order[k] < counts.len());
            }
            if all.contains(p) {
                let k = choose|k: int| 0 <= k < all.len() && all[k] == p;
            }
        }
    }
    assert(order.to_multiset() =~= all.to_multiset());
    assert(sorted_by(order, r));
    lemma_sorted_unique(order, all.sort_by(r), r);
}

/// Two sequences of the same items, in whatever order, are still two
/// sequences of the same items after `f` is applied to each item.
proof fn lemma_map_same_multiset<A, B>(a: Seq<A>, b: Seq<A>, f: spec_fn(A) -> B)
    requires
        a.to_multiset() == b.to_multiset(),
    ensures
        a.map_values(f).to_multiset() == b.map_values(f).to_multiset(),
    decreases a.len(),
{
    broadcast use group_to_multiset_ensures;

    assert(a.len() == a.to_multiset().len());
    assert(b.len() == b.to_multiset().len());
    if a.len() == 0 {
        assert(a.map_values(f) =~= b.map_values(f));
    } else {
        let x = a.last();
        assert(a[a.len() - 1] == x);
        assert(a.contains(x));
        assert(b.to_multiset().count(x) > 0);
        let i = choose|i: int| 0 <= i < b.len() && b[i] == x;
        let a_rest = a.remove(a.len() - 1);
        let b_rest = b.remove(i);
        assert(a_rest.to_multiset() == b_rest.to_multiset());
        lemma_map_same_multiset(a_rest, b_rest, f);
        assert(a.map_values(f) =~= a_rest.map_values(f).insert(a.len() - 1, f(x)));
        assert(b.map_values(f) =~= b_rest.map_values(f).insert(i, f(x)));
    }
}

/// Taking one entry out lowers the sum of the counts by its count.
proof fn lemma_total_remove(entries: Seq<Entry>, i: int)
    requires
        0 <= i < entries.len(),
    ensures
        total(entries) == total(entries.remove(i)) + entries[i].count,
    decreases entries.len(),
{
    if i == entries.len() - 1 {
        assert(entries.remove(i) =~= entries.drop_last());
    } else {
        assert(entries.remove(i).drop_last() =~= entries.drop_last().remove(i));
        lemma_total_remove(entries.drop_last(), i);
    }
}

/// The sum of the counts does not depend on the order of the entries.
pub proof fn lemma_total_same_multiset(a: Seq<Entry>, b: Seq<Entry>)
    requires
        a.to_multiset() == b.to_multiset(),
    ensures
        total(a) == total(b),
    decreases a.len(),
{
    broadcast use group_to_multiset_ensures;

    assert(a.len() == a.to_multiset().len());
    assert(b.len() == b.to_multiset().len());
    if a.len() > 0 {
        let x = a.last();
        assert(a[a.len() - 1] == x);
        assert(a.contains(x));
        assert(b.to_multiset().count(x) > 0);
        let i = choose|i: int| 0 <= i < b.len() && b[i] == x;
        let a_rest = a.remove(a.len() - 1);
        let b_rest = b.remove(i);
        assert(a_rest.to_multiset() == b_rest.to_multiset());
        lemma_total_same_multiset(a_rest, b_rest);
        lemma_total_remove(a, a.len() - 1);
        lemma_total_remove(b, i);
    }
}

/// The ranked list holds the entries that were ranked: each of them as often
/// as `entries` holds it, and nothing else.
pub proof fn lemma_ranking_same_entries(entries: Seq<Entry>)
    ensures
        ranking(entries).len() == entries.len(),
        ranking(entries).to_multiset() == entries.to_multiset(),
{
    let counts = counts_of(entries);
    let all = positions(0, entries.len() as int);
    lemma_rank_order(counts);
    lemma_map_same_multiset(rank_order(counts), all, |p: int| entries[p]);
    assert(all.map_values(|p: int| entries[p]) =~= entries);
}

/// In the ranked list no entry counts more than an entry before it.
pub proof fn lemma_ranking_sorted(entries: Seq<Entry>)
    ensures
        forall|i: int, j: int|
            0 <= i < j < ranking(entries).len() ==> (#[trigger] ranking(entries)[i]).count >= (
            #[trigger] ranking(entries)[j]).count,
{
    let counts = counts_of(entries);
    let order = rank_order(counts);
    lemma_rank_order(counts);
    assert forall|i: int, j: int| 0 <= i < j < ranking(entries).len() implies (
    #[trigger] ranking(entries)[i]).count >= (#[trigger] ranking(entries)[j]).count by {
        assert(ranks_first(counts, order[i], order[j]));
    }
}

/// Entries that count the same keep, in the ranked list, the order that they
/// have in `entries`.
pub proof fn lemma_ranking_stable(entries: Seq<Entry>)
    requires
        distinct_words(entries),
    ensures
        forall|i: int, j: int|
            0 <= i < j < ranking(entries).len() && (#[trigger] ranking(entries)[i]).count == (
            #[trigger] ranking(entries)[j]).count ==> entry_index(entries, ranking(entries)[i].word)
                < entry_index(entries, ranking(entries)[j].word),
{
    let counts = counts_of(entries);
    let order = rank_order(counts);
    lemma_rank_order(counts);
    assert forall|i: int, j: int|
        0 <= i < j < ranking(entries).len() && (#[trigger] ranking(entries)[i]).count == (
        #[trigger] ranking(entries)[j]).count implies entry_index(
        entries,
        ranking(entries)[i].word,
    ) < entry_index(entries, ranking(entries)[j].word) by {
        assert(ranks_first(counts, order[i], order[j]));
        assert(order[i] != order[j]);
        lemma_entry_index(entries, order[i]);
        lemma_entry_index(entries, order[j]);
    }
}

/// Where no word has two entries, a word leads back to the place of its entry.
proof fn lemma_entry_index(entries: Seq<Entry>, p: int)
    requires
        distinct_words(entries),
        0 <= p < entries.len(),
    ensures
        entry_index(entries, entries[p].word) == p,
{
    let q = entry_index(entries, entries[p].word);
    assert(entries[q].word == entries[p].word);
    if q < p {
        assert(entries[q].word != entries[p].word);
    } else if p < q {
        assert(entries[p].word != entries[q].word);
    }
}

/// Ranking keeps the sum of the counts.
pub proof fn lemma_ranking_total(entries: Seq<Entry>)
    ensures
        total(ranking(entries)) == total(entries),
{
    lemma_ranking_same_entries(entries);
    lemma_total_same_multiset(ranking(entries), entries);
}

/// Whether position `a` ranks no later than position `b`.
fn ranks_no_later(counts: &Vec<u32>, a: usize, b: usize) -> (first: bool)
    requires
        a < counts@.len(),
        b < counts@.len(),
    ensures
        first == ranks_first(nats(counts@), a as int, b as int),
{
    counts[a] > counts[b] || (counts[a] == counts[b] && a <= b)
}

/// Merges two runs of positions, each in ranking order, into one.
fn merge(counts: &Vec<u32>, left: &Vec<usize>, right: &Vec<usize>) -> (out: Vec<usize>)
    requires
        sorted_by(ints(left@), rank_relation(nats(counts@))),
        sorted_by(ints(right@), rank_relation(nats(counts@))),
        forall|k: int| 0 <= k < left@.len() ==> #[trigger] left@[k] < counts@.len(),
        forall|k: int| 0 <= k < right@.len() ==> #[trigger] right@[k] < counts@.len(),
    ensures
        out@.len() == left@.len() + right@.len(),
        sorted_by(ints(out@), rank_relation(nats(counts@))),
        ints(out@).to_multiset() == ints(left@).to_multiset().add(ints(right@).to_multiset()),
        forall|k: int| 0 <= k < out@.len() ==> #[trigger] out@[k] < counts@.len(),
{
    let ghost r = rank_relation(nats(counts@));
    let mut out: Vec<usize> = Vec::new();
    let mut i: usize = 0;
    let mut j: usize = 0;
    proof {
        lemma_rank_relation_total(nats(counts@));
        assert(ints(left@).take(0) =~= Seq::<int>::empty());
        assert(ints(right@).take(0) =~= Seq::<int>::empty());
        assert(ints(out@) =~= Seq::<int>::empty());
        let none = Seq::<int>::empty().to_multiset();
        assert(none.len() == 0) by {
            broadcast use group_to_multiset_ensures;
        }
        assert(none =~= none.add(none)) by {
            broadcast use vstd::multiset::group_multiset_axioms;
        }
    }
    while i < left.len() || j < right.len()
        invariant
            r == rank_relation(nats(counts@)),
            total_ordering(r),
            i <= left@.len(),
            j <= right@.len(),
            out@.len() == i + j,
            sorted_by(ints(left@), r),
            sorted_by(ints(right@), r),
            forall|k: int| 0 <= k < left@.len() ==> #[trigger] left@[k] < counts@.len(),
            forall|k: int| 0 <= k < right@.len() ==> #[trigger] right@[k] < counts@.len(),
            forall|k: int| 0 <= k < out@.len() ==> #[trigger] out@[k] < counts@.len(),
            sorted_by(ints(out@), r),
            forall|k: int|
                0 <= k < out@.len() && i < left@.len() ==> r(
                    #[trigger] ints(out@)[k],
                    left@[i as int] as int,
                ),
            forall|k: int|
                0 <= k < out@.len() && j < right@.len() ==> r(
                    #[trigger] ints(out@)[k],
                    right@[j as int] as int,
                ),
            ints(out@).to_multiset() == ints(left@).take(i as int).to_multiset().add(
                ints(right@).take(j as int).to_multiset(),
            ),
        decreases left@.len() - i + right@.len() - j,
    {
        let ghost before = ints(out@);
        let from_left = if i >= left.len() {
            false
        } else if j >= right.len() {
            true
        } else {
            ranks_no_later(counts, left[i], right[j])
        };
        if from_left {
            let p = left[i];
            out.push(p);
            proof {
                broadcast use group_to_multiset_ensures;
                assert(ints(out@) =~= before.push(p as int));
                assert(ints(left@).take(i + 1) =~= ints(left@).take(i as int).push(p as int));
                assert(ints(left@)[i as int] == p as int);
                assert forall|k: int| 0 <= k < out@.len() && i + 1 < left@.len() implies r(
                    #[trigger] ints(out@)[k],
                    left@[i + 1] as int,
                ) by {
                    assert(r(ints(left@)[i as int], ints(left@)[i + 1]));
                }
            }
            i = i + 1;
        } else {
            let p = right[j];
            out.push(p);
            proof {
                broadcast use group_to_multiset_ensures;
                assert(ints(out@) =~= before.push(p as int));
                assert(ints(right@).take(j + 1) =~= ints(right@).take(j as int).push(p as int));
                assert(ints(right@)[j as int] == p as int);
                assert forall|k: int| 0 <= k < out@.len() && j + 1 < right@.len() implies r(
                    #[trigger] ints(out@)[k],
                    right@[j + 1] as int,
                ) by {
                    assert(r(ints(right@)[j as int], ints(right@)[j + 1]));
                }
            }
            j = j + 1;
        }
    }
    proof {
        assert(ints(left@).take(i as int) =~= ints(left@));
        assert(ints(right@).take(j as int) =~= ints(right@));
    }
    out
}

/// Arranges the positions from `lo` up to `hi` in ranking order, by sorting
/// each half and merging the two.
fn sort_positions(counts: &Vec<u32>, lo: usize, hi: usize) -> (order: Vec<usize>)
    requires
        lo <= hi <= counts@.len(),
    ensures
        order@.len() == hi - lo,
        sorted_by(ints(order@), rank_relation(nats(counts@))),
        ints(order@).to_multiset() == positions(lo as int, hi as int).to_multiset(),
        forall|k: int| 0 <= k < order@.len() ==> #[trigger] order@[k] < counts@.len(),
    decreases hi - lo,
{
    let mut order: Vec<usize> = Vec::new();
    if hi - lo == 0 {
        assert(ints(order@) =~= positions(lo as int, hi as int));
    } else if hi - lo == 1 {
        order.push(lo);
        assert(ints(order@) =~= positions(lo as int, hi as int));
    } else {
        let mid = lo + (hi - lo) / 2;
        let left = sort_positions(counts, lo, mid);
        let right = sort_positions(counts, mid, hi);
        proof {
            broadcast use group_to_multiset_ensures;
            let lower = positions(lo as int, mid as int);
            let upper = positions(mid as int, hi as int);
            lemma_multiset_commutative(lower, upper);
            assert(lower + upper =~= positions(lo as int, hi as int));
        }
        order = merge(counts, &left, &right);
    }
    order
}

/// The positions of `counts` in ranking order: higher counts first, and
/// positions of equal count in rising order.
pub fn rank_positions(counts: &Vec<u32>) -> (order: Vec<usize>)
    ensures
        ints(order@) == rank_order(nats(counts@)),
        order@.len() == counts@.len(),
        forall|k: int| 0 <= k < order@.len() ==> #[trigger] order@[k] < counts@.len(),
{
    let order = sort_positions(counts, 0, counts.len());
    proof {
        let all = positions(0, counts@.len() as int);
        let r = rank_relation(nats(counts@));
        assert(nats(counts@).len() == counts@.len());
        lemma_rank_relation_total(nats(counts@));
        all.lemma_sort_by_ensures(r);
        lemma_sorted_unique(ints(order@), all.sort_by(r), r);
    }
    order
}

} // verus!
