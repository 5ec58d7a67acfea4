//! The order in which counted names are ranked: larger counts first, and
//! among equal counts the name that was seen first.

use vstd::prelude::*;

verus! {

/// Whether entry `i` is ranked before entry `j`: it has the larger count,
/// or the same count and the earlier place in `entries`.
pub open spec fn precedes(entries: Seq<(Seq<char>, nat)>, i: int, j: int) -> bool {
    entries[i].1 > entries[j].1 || (entries[i].1 == entries[j].1 && i < j)
}

/// Whether `order` lists the place of every entry, and each place before
/// all those that it precedes.
pub open spec fn is_ranking(entries: Seq<(Seq<char>, nat)>, order: Seq<int>) -> bool {
    &&& order.len() == entries.len()
    &&& forall|a: int| 0 <= a < order.len() ==> 0 <= #[trigger] order[a] < entries.len()
    &&& forall|k: int| 0 <= k < entries.len() ==> #[trigger] order.contains(k)
    &&& forall|a: int, b: int|
        0 <= a < b < order.len() ==> precedes(entries, #[trigger] order[a], #[trigger] order[b])
}

/// Where a newly seen entry with `count` goes into `order`: behind the
/// last place whose entry has at least that count.
pub open spec fn slot_for(entries: Seq<(Seq<char>, nat)>, order: Seq<int>, count: nat) -> int
    decreases order.len(),
{
    if order.len() == 0 {
        0
    } else if entries[order.last()].1 >= count {
        order.len() as int
    } else {
        slot_for(entries, order.drop_last(), count)
    }
}

/// The places of `entries` in ranked order.
pub open spec fn rank_order(entries: Seq<(Seq<char>, nat)>) -> Seq<int>
    decreases entries.len(),
{
    if entries.len() == 0 {
        Seq::empty()
    } else {
        let earlier = rank_order(entries.drop_last());
        earlier.insert(slot_for(entries, earlier, entries.last().1), entries.len() - 1)
    }
}

/// The entries in ranked order.
pub open spec fn ranked(entries: Seq<(Seq<char>, nat)>) -> Seq<(Seq<char>, nat)> {
    Seq::new(entries.len(), |a: int| entries[rank_order(entries)[a]])
}

/// The names of the `n` entries ranked first.
pub open spec fn top_names(entries: Seq<(Seq<char>, nat)>, n: nat) -> Seq<Seq<char>> {
    Seq::new(n, |a: int| ranked(entries)[a].0)
}

/// In an order of falling counts, the slot for a count has in front of it
/// the entries with at least that count and behind it those with less.
pub proof fn lemma_slot_for(entries: Seq<(Seq<char>, nat)>, order: Seq<int>, count: nat)
    requires
        forall|a: int, b: int|
            0 <= a < b < order.len() ==> entries[#[trigger] order[a]].1 >= entries[#[trigger] order[b]].1,
    ensures
        0 <= slot_for(entries, order, count) <= order.len(),
        forall|a: int|
            0 <= a < slot_for(entries, order, count) ==> entries[#[trigger] order[a]].1 >= count,
        forall|a: int|
            slot_for(entries, order, count) <= a < order.len() ==> entries[#[trigger] order[a]].1
                < count,
    decreases order.len(),
{
    if order.len() > 0 {
        let front = order.drop_last();
        if entries[order.last()].1 >= count {
            assert forall|a: int| 0 <= a < order.len() implies entries[#[trigger] order[a]].1
                >= count by {
                if a < order.len() - 1 {
                    assert(entries[order[a]].1 >= entries[order[order.len() - 1]].1);
                }
            }
        } else {
            assert forall|a: int, b: int| 0 <= a < b < front.len() implies entries[#[trigger] front[a]].1
                >= entries[#[trigger] front[b]].1 by {
                assert(front[a] == order[a] && front[b] == order[b]);
            }
            lemma_slot_for(entries, front, count);
            let slot = slot_for(entries, front, count);
            assert forall|a: int| 0 <= a < slot implies entries[#[trigger] order[a]].1 >= count by {
                assert(front[a] == order[a]);
            }
            assert forall|a: int| slot <= a < order.len() implies entries[#[trigger] order[a]].1
                < count by {
                if a < front.len() {
                    assert(front[a] == order[a]);
                }
            }
        }
    }
}

/// `rank_order` is a ranking.
pub proof fn lemma_rank_order(entries: Seq<(Seq<char>, nat)>)
    ensures
        is_ranking(entries, rank_order(entries)),
    decreases entries.len(),
{
    if entries.len() > 0 {
        let last = entries.len() - 1;
        let init = entries.drop_last();
        let earlier = rank_order(init);
        let count = entries.last().1;
        let slot = slot_for(entries, earlier, count);
        let order = rank_order(entries);
        lemma_rank_order(init);
        assert forall|a: int, b: int| 0 <= a < b < earlier.len() implies entries[#[trigger] earlier[a]].1
            >= entries[#[trigger] earlier[b]].1 by {
            assert(precedes(init, earlier[a], earlier[b]));
        }
        lemma_slot_for(entries, earlier, count);
        assert(order == earlier.insert(slot, last));
        assert forall|k: int| 0 <= k < entries.len() implies #[trigger] order.contains(k) by {
            if k == last {
                assert(order[slot] == k);
            } else {
                assert(earlier.contains(k));
                let a = choose|a: int| 0 <= a < earlier.len() && earlier[a] == k;
                if a < slot {
                    assert(order[a] == k);
                } else {
                    assert(order[a + 1] == k);
                }
            }
        }
        assert forall|a: int, b: int| 0 <= a < b < order.len() implies precedes(
            entries,
            #[trigger] order[a],
            #[trigger] order[b],
        ) by {
            let from = |x: int| if x < slot { x } else { x - 1 };
            if a == slot {
                assert(order[b] == earlier[b - 1]);
            } else if b == slot {
                assert(order[a] == earlier[a]);
            } else {
                assert(order[a] == earlier[from(a)]);
                assert(order[b] == earlier[from(b)]);
                assert(precedes(init, earlier[from(a)], earlier[from(b)]));
            }
        }
    }
}

/// Two rankings of the same entries agree on their first `n` places.
proof fn lemma_rankings_agree(
    entries: Seq<(Seq<char>, nat)>,
    first: Seq<int>,
    second: Seq<int>,
    n: int,
)
    requires
        is_ranking(entries, first),
        is_ranking(entries, second),
        0 <= n <= entries.len(),
    ensures
        forall|a: int| 0 <= a < n ==> first[a] == second[a],
    decreases n,
{
    if n > 0 {
        lemma_rankings_agree(entries, first, second, n - 1);
        let i = n - 1;
        let x = first[i];
        let y = second[i];
        assert(second.contains(x));
        let q = choose|q: int| 0 <= q < second.len() && second[q] == x;
        assert(first.contains(y));
        let r = choose|r: int| 0 <= r < first.len() && first[r] == y;
        if q < i {
            assert(precedes(entries, first[q], first[i]));
        }
        if r < i {
            assert(precedes(entries, second[r], second[i]));
        }
        if q > i && r > i {
            assert(precedes(entries, second[i], second[q]));
            assert(precedes(entries, first[i], first[r]));
        }
    }
}

/// Entries have one ranking only.
pub proof fn lemma_ranking_unique(
    entries: Seq<(Seq<char>, nat)>,
    first: Seq<int>,
    second: Seq<int>,
)
    requires
        is_ranking(entries, first),
        is_ranking(entries, second),
    ensures
        first == second,
{
    lemma_rankings_agree(entries, first, second, entries.len() as int);
    assert(first =~= second);
}

/// The ranked entries are the entries in another order, with counts that
/// never rise, and among equal counts in the order in which they were seen.
pub proof fn lemma_ranked(entries: Seq<(Seq<char>, nat)>)
    ensures
        ranked(entries).len() == entries.len(),
        forall|k: int| 0 <= k < entries.len() ==> ranked(entries).contains(#[trigger] entries[k]),
        forall|a: int, b: int|
            0 <= a < b < entries.len() ==> (#[trigger] ranked(entries)[a]).1 >= (#[trigger] ranked(
                entries,
            )[b]).1,
        forall|a: int, b: int|
            0 <= a < b < entries.len() && ranked(entries)[a].1 == ranked(entries)[b].1
                ==> #[trigger] rank_order(entries)[a] < #[trigger] rank_order(entries)[b],
{
    lemma_rank_order(entries);
    let order = rank_order(entries);
    assert forall|k: int| 0 <= k < entries.len() implies ranked(entries).contains(
        #[trigger] entries[k],
    ) by {
        assert(order.contains(k));
        let a = choose|a: int| 0 <= a < order.len() && order[a] == k;
        assert(ranked(entries)[a] == entries[k]);
    }
    assert forall|a: int, b: int| 0 <= a < b < entries.len() implies (#[trigger] ranked(
        entries,
    )[a]).1 >= (#[trigger] ranked(entries)[b]).1 by {
        assert(precedes(entries, order[a], order[b]));
    }
    assert forall|a: int, b: int|
        0 <= a < b < entries.len() && ranked(entries)[a].1 == ranked(entries)[b].1 implies #[trigger] order[a]
            < #[trigger] order[b] by {
        assert(precedes(entries, order[a], order[b]));
    }
}

} // verus!
