//! Distributions of totals: how often each total came up in a number of
//! rolls of a bag.

use crate::distribution::{DiceBag, MinMax};
use crate::roll::{greatest_total_of, least_total_of, rollable};
use std::collections::BTreeMap;
use vstd::prelude::*;

verus! {

/// How often `k` stands in `totals`.
pub open spec fn occurrences(totals: Seq<i64>, k: i64) -> nat
    decreases totals.len(),
{
    if totals.len() == 0 {
        0
    } else {
        occurrences(totals.drop_last(), k) + if totals.last() == k {
            1nat
        } else {
            0nat
        }
    }
}

/// A value stands in a sequence no more often than the sequence is long,
/// and once at least if it stands in it.
pub proof fn lemma_occurrences(totals: Seq<i64>, k: i64)
    ensures
        occurrences(totals, k) <= totals.len(),
        occurrences(totals, k) > 0 <==> totals.contains(k),
    decreases totals.len(),
{
    if totals.len() > 0 {
        lemma_occurrences(totals.drop_last(), k);
        if totals.last() == k {
            assert(totals[totals.len() - 1] == k);
        } else if totals.contains(k) {
            let i = choose|i: int| 0 <= i < totals.len() && totals[i] == k;
            assert(totals.drop_last()[i] == k);
        } else if totals.drop_last().contains(k) {
            let i = choose|i: int| 0 <= i < totals.drop_last().len() && totals.drop_last()[i] == k;
            assert(totals[i] == k);
        }
    }
}

/// The distribution of `totals` over a range: every total of the range,
/// both ends included, and every total that came up, each with the number
/// of times it came up.
pub open spec fn histogram(range: MinMax, totals: Seq<i64>) -> Map<i64, usize> {
    Map::new(
        |k: i64| range.lo() <= k <= range.hi() || totals.contains(k),
        |k: i64| occurrences(totals, k) as usize,
    )
}

/// The counts with one more roll of the given total: its count goes up
/// by one, or is one if the total had none.
pub open spec fn with_one_more(counts: Map<i64, usize>, total: i64) -> Map<i64, usize> {
    counts.insert(
        total,
        if counts.contains_key(total) {
            (counts[total] + 1) as usize
        } else {
            1
        },
    )
}

/// Counts one more roll of the given total.
pub fn record(counts: &mut BTreeMap<i64, usize>, total: i64)
    requires
        old(counts)@.contains_key(total) ==> old(counts)@[total] < usize::MAX,
    ensures
        final(counts)@ == with_one_more(old(counts)@, total),
{
    broadcast use vstd::laws_cmp::group_laws_cmp;

    let seen: Option<usize> = match counts.get(&total) {
        Some(c) => Some(*c),
        None => None,
    };
    match seen {
        Some(c) => {
            counts.insert(total, c + 1);
        },
        None => {
            counts.insert(total, 1);
        },
    }
}

/// All totals lie between the two bounds.
pub open spec fn totals_within(totals: Seq<i64>, lo: int, hi: int) -> bool {
    forall|i: int| 0 <= i < totals.len() ==> lo <= #[trigger] totals[i] <= hi
}

impl DiceBag {
    /// Rolls the bag `roll_count` times and counts how often each total
    /// came up. Every total of the range is counted, with zero if it never
    /// came up.
    pub fn make_count_distribution(&self, roll_count: usize) -> (r: BTreeMap<i64, usize>)
        requires
            rollable(self.groups()),
        ensures
            exists|totals: Seq<i64>|
                #![trigger histogram(self.range, totals)]
                totals.len() == roll_count && totals_within(
                    totals,
                    least_total_of(self.groups()),
                    greatest_total_of(self.groups()),
                ) && r@ == histogram(self.range, totals),
            self.range_holds_totals() ==> forall|k: i64|
                r@.contains_key(k) <==> self.range.lo() <= k <= self.range.hi(),
    {
        let mut range = self.get_range_as_btreemap();
        let ghost mut totals: Seq<i64> = Seq::empty();
        let mut done: usize = 0;
        proof {
            assert(range@ =~= histogram(self.range, totals));
        }
        while done < roll_count
            invariant
                done <= roll_count,
                rollable(self.groups()),
                totals.len() == done,
                totals_within(
                    totals,
                    least_total_of(self.groups()),
                    greatest_total_of(self.groups()),
                ),
                range@ == histogram(self.range, totals),
                self.range_holds_totals() ==> totals_within(
                    totals,
                    self.range.lo(),
                    self.range.hi(),
                ),
            decreases roll_count - done,
        {
            let roll = self.roll();
            let ghost before = totals;
            proof {
                lemma_occurrences(before, roll.total);
                totals = before.push(roll.total);
                assert(totals.drop_last() =~= before);
            }
            record(&mut range, roll.total);
            proof {
                assert forall|k: i64| before.push(roll.total).contains(k) <==> before.contains(k)
                    || k == roll.total by {
                    if before.contains(k) {
                        let i = choose|i: int| 0 <= i < before.len() && before[i] == k;
                        assert(totals[i] == k);
                    }
                    if k == roll.total {
                        assert(totals[totals.len() - 1] == k);
                    }
                }
                assert(range@ =~= histogram(self.range, totals));
            }
            done = done + 1;
        }
        proof {
            if self.range_holds_totals() {
                assert forall|k: i64| range@.contains_key(k) implies self.range.lo() <= k
                    <= self.range.hi() by {
                    if totals.contains(k) {
                        let i = choose|i: int| 0 <= i < totals.len() && totals[i] == k;
                        assert(self.range.lo() <= totals[i] <= self.range.hi());
                    }
                }
            }
        }
        range
    }
}

} // verus!
