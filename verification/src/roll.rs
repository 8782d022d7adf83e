//! Rolling a bag: the random values of each group, what the clauses of the
//! group make of them, and the report of one roll.

use crate::distribution::{
    fits_i64, lemma_face_times_count, views_of, Bonus, CutOff, Dice, DiceBag, DiceGroup,
    DiceGroupView, DiceOp, DiceView, Drop, DropView, ReRoll,
};
use rand::Rng;
use vstd::prelude::*;

verus! {

/// How many further rolls one exploding die may grant. A die of one side
/// shows its highest face at every roll; without a limit it would never
/// come to rest.
pub const EXPLOSION_LIMIT: usize = 1000;

/// The sum of a sequence of values.
pub open spec fn sum_of(s: Seq<i64>) -> int
    decreases s.len(),
{
    if s.len() == 0 {
        0
    } else {
        sum_of(s.drop_last()) + s.last()
    }
}

/// Whether the values stand in ascending order.
pub open spec fn ascending(s: Seq<i64>) -> bool {
    forall|i: int, j: int| 0 <= i <= j < s.len() ==> s[i] <= s[j]
}

/// Whether the values stand in descending order.
pub open spec fn descending(s: Seq<i64>) -> bool {
    forall|i: int, j: int| 0 <= i <= j < s.len() ==> s[i] >= s[j]
}

/// Whether every value lies between `lo` and `hi`.
pub open spec fn all_within(s: Seq<i64>, lo: int, hi: int) -> bool {
    forall|i: int| 0 <= i < s.len() ==> lo <= #[trigger] s[i] <= hi
}

/// The sum of values that lie between two bounds lies between the bounds
/// taken as many times as there are values.
pub proof fn lemma_sum_bounds(s: Seq<i64>, lo: int, hi: int)
    requires
        all_within(s, lo, hi),
    ensures
        s.len() * lo <= sum_of(s) <= s.len() * hi,
    decreases s.len(),
{
    if s.len() == 0 {
        assert(0 * lo == 0 && 0 * hi == 0);
    } else {
        let n = s.len() as int;
        assert(s.drop_last().len() == n - 1);
        assert(all_within(s.drop_last(), lo, hi)) by {
            assert forall|i: int| 0 <= i < s.drop_last().len() implies lo
                <= #[trigger] s.drop_last()[i] <= hi by {
                assert(s.drop_last()[i] == s[i]);
            }
        }
        lemma_sum_bounds(s.drop_last(), lo, hi);
        assert(lo <= s.last() <= hi);
        assert((n - 1) * lo + lo == n * lo) by (nonlinear_arith);
        assert((n - 1) * hi + hi == n * hi) by (nonlinear_arith);
    }
}

/// Calls `rand::thread_rng` and `Rng::gen_range` on the generator that it
/// returns. `gen_range(low, high)` panics unless `low < high`, and returns
/// `low` plus a remainder of the division by `high - low`: a value that is
/// `low` at least and below `high`. Which one is not known. `thread_rng`
/// itself panics where the system has no entropy to seed the generator.
#[verifier::external_body]
fn random_between(low: i64, high: i64) -> (r: i64)
    requires
        low < high,
    ensures
        low <= r < high,
{
    rand::thread_rng().gen_range(low, high)
}

/// Calls `sort_unstable` of slices, which puts the elements in ascending
/// order and neither adds nor loses any.
#[verifier::external_body]
fn sort_ascending(values: &mut Vec<i64>)
    ensures
        ascending(final(values)@),
        final(values)@.to_multiset() == old(values)@.to_multiset(),
{
    values.sort_unstable();
}

/// One roll of a die of `size` sides.
pub fn roll_die(size: i64) -> (r: i64)
    requires
        1 <= size < i64::MAX,
    ensures
        1 <= r <= size,
{
    random_between(1, size + 1)
}

/// Rolls an exploding die of `max` sides and adds what it shows to `vec`:
/// the first roll, and one more roll after each roll of `max`, up to
/// [`EXPLOSION_LIMIT`] further rolls.
pub fn explode(vec: &mut Vec<i64>, max: i64)
    requires
        1 <= max < i64::MAX,
    ensures
        old(vec)@.len() < final(vec)@.len() <= old(vec)@.len() + 1 + EXPLOSION_LIMIT,
        final(vec)@.take(old(vec)@.len() as int) == old(vec)@,
        forall|i: int|
            old(vec)@.len() <= i < final(vec)@.len() ==> 1 <= #[trigger] final(vec)@[i] <= max,
        forall|i: int|
            old(vec)@.len() <= i < final(vec)@.len() - 1 ==> #[trigger] final(vec)@[i] == max,
        final(vec)@.len() < old(vec)@.len() + 1 + EXPLOSION_LIMIT ==> final(vec)@.last() != max,
{
    let ghost before = vec@;
    let mut roll = roll_die(max);
    vec.push(roll);
    let mut further: usize = 0;
    assert(vec@.take(before.len() as int) =~= before);
    while roll == max && further < EXPLOSION_LIMIT
        invariant
            1 <= max < i64::MAX,
            further <= EXPLOSION_LIMIT,
            vec@.len() == before.len() + 1 + further,
            vec@.take(before.len() as int) == before,
            forall|i: int| before.len() <= i < vec@.len() ==> 1 <= #[trigger] vec@[i] <= max,
            forall|i: int| before.len() <= i < vec@.len() - 1 ==> #[trigger] vec@[i] == max,
            vec@.last() == roll,
        decreases EXPLOSION_LIMIT - further,
    {
        let ghost so_far = vec@;
        roll = roll_die(max);
        vec.push(roll);
        further = further + 1;
        assert(vec@.take(before.len() as int) =~= so_far.take(before.len() as int));
    }
}

/// Whether a value is rolled again under the clause if its turn comes.
pub open spec fn qualifies(reroll: ReRoll, val: i64) -> bool {
    match reroll {
        ReRoll::Never => false,
        ReRoll::IfAbove(t) => val > t.ex_threshold,
        ReRoll::IfBelow(t) => val < t.ex_threshold,
    }
}

/// How many values the clause may roll again.
pub open spec fn reroll_limit(reroll: ReRoll) -> nat {
    match reroll {
        ReRoll::Never => 0,
        ReRoll::IfAbove(t) | ReRoll::IfBelow(t) => t.count as nat,
    }
}

/// How many of the first `k` values qualify.
pub open spec fn qualifying_before(s: Seq<i64>, k: int, reroll: ReRoll) -> nat
    decreases k,
{
    if k <= 0 {
        0
    } else {
        qualifying_before(s, k - 1, reroll) + if qualifies(reroll, s[k - 1]) {
            1nat
        } else {
            0nat
        }
    }
}

/// Whether the value at `i` is rolled again: it qualifies, and fewer
/// values than the clause allows qualify before it.
pub open spec fn rerolled_at(s: Seq<i64>, i: int, reroll: ReRoll) -> bool {
    qualifies(reroll, s[i]) && qualifying_before(s, i, reroll) < reroll_limit(reroll)
}

/// The number of qualifying values does not go down along the sequence.
proof fn lemma_qualifying_grows(s: Seq<i64>, i: int, j: int, reroll: ReRoll)
    requires
        0 <= i <= j,
    ensures
        qualifying_before(s, i, reroll) <= qualifying_before(s, j, reroll),
    decreases j - i,
{
    if i < j {
        lemma_qualifying_grows(s, i, j - 1, reroll);
    }
}

/// Whether a value qualifies under the clause.
fn is_qualifying(reroll: &ReRoll, val: i64) -> (r: bool)
    ensures
        r == qualifies(*reroll, val),
{
    match reroll {
        ReRoll::Never => false,
        ReRoll::IfAbove(t) => val > t.ex_threshold,
        ReRoll::IfBelow(t) => val < t.ex_threshold,
    }
}

/// How many values the clause may roll again.
fn limit_of(reroll: &ReRoll) -> (r: usize)
    ensures
        r == reroll_limit(*reroll),
{
    match reroll {
        ReRoll::Never => 0,
        ReRoll::IfAbove(t) => t.count,
        ReRoll::IfBelow(t) => t.count,
    }
}

/// Goes through the values once, from the first to the last, and rolls
/// again each one that qualifies, until the clause allows no more. A new
/// value is not looked at again. Every other value stays.
pub fn reroll_values(values: &mut Vec<i64>, reroll: &ReRoll, size: i64)
    requires
        1 <= size < i64::MAX,
    ensures
        final(values)@.len() == old(values)@.len(),
        forall|i: int|
            0 <= i < old(values)@.len() ==> if rerolled_at(old(values)@, i, *reroll) {
                1 <= #[trigger] final(values)@[i] <= size
            } else {
                final(values)@[i] == old(values)@[i]
            },
{
    let ghost before = values@;
    let limit = limit_of(reroll);
    let mut done: usize = 0;
    let mut i: usize = 0;
    while i < values.len() && done < limit
        invariant
            1 <= size < i64::MAX,
            limit == reroll_limit(*reroll),
            values@.len() == before.len(),
            i <= values@.len(),
            done <= limit,
            done == qualifying_before(before, i as int, *reroll),
            forall|j: int| i <= j < before.len() ==> values@[j] == before[j],
            forall|j: int|
                0 <= j < i ==> if rerolled_at(before, j, *reroll) {
                    1 <= #[trigger] values@[j] <= size
                } else {
                    values@[j] == before[j]
                },
        decreases values.len() - i,
    {
        if is_qualifying(reroll, values[i]) {
            let again = roll_die(size);
            values.set(i, again);
            done = done + 1;
        }
        proof {
            assert forall|j: int| 0 <= j < i implies qualifying_before(before, j, *reroll)
                <= qualifying_before(before, i as int, *reroll) by {
                lemma_qualifying_grows(before, j, i as int, *reroll);
            }
        }
        i = i + 1;
    }
    proof {
        assert forall|j: int| i <= j < before.len() implies !rerolled_at(before, j, *reroll) by {
            lemma_qualifying_grows(before, i as int, j, *reroll);
        }
    }
}

/// The values with the cutoff clause applied to each.
pub open spec fn cut_off(s: Seq<i64>, cutoff: CutOff) -> Seq<i64> {
    Seq::new(s.len(), |i: int| cutoff.clamp(s[i]))
}

/// Applies the cutoff clause to each value.
pub fn cut_off_values(values: &mut Vec<i64>, cutoff: &CutOff)
    ensures
        final(values)@ == cut_off(old(values)@, *cutoff),
{
    let ghost before = values@;
    let mut i: usize = 0;
    while i < values.len()
        invariant
            i <= values@.len(),
            values@.len() == before.len(),
            forall|j: int| 0 <= j < i ==> values@[j] == cutoff.clamp(before[j]),
            forall|j: int| i <= j < before.len() ==> values@[j] == before[j],
        decreases values.len() - i,
    {
        let mut val = values[i];
        cutoff.use_to_cut_off(&mut val);
        values.set(i, val);
        i = i + 1;
    }
    assert(values@ =~= cut_off(before, *cutoff));
}

/// How many of `len` values are left when `n` of them are discarded.
pub open spec fn left_of(len: nat, n: usize) -> nat {
    if n <= len {
        (len - n) as nat
    } else {
        0
    }
}

/// Whether every position is below `len`.
pub open spec fn positions_below(keep: Seq<usize>, len: nat) -> bool {
    forall|i: int| 0 <= i < keep.len() ==> (#[trigger] keep[i]) < len
}

/// Whether the drop clause can be applied to `len` values: the positions
/// that a custom clause keeps are all below `len`.
pub open spec fn drop_applies(drop: DropView, len: nat) -> bool {
    match drop {
        DropView::Custom(keep) => positions_below(keep, len),
        _ => true,
    }
}

/// The values that the drop clause keeps of values in ascending order:
/// without its highest, in ascending order; without its lowest, in
/// descending order; for a custom clause those at the kept positions, in
/// the order of the positions.
pub open spec fn kept_of(sorted: Seq<i64>, drop: DropView) -> Seq<i64> {
    match drop {
        DropView::Non => sorted,
        DropView::Highest(n) => sorted.take(left_of(sorted.len(), n) as int),
        DropView::Lowest(n) => Seq::new(
            left_of(sorted.len(), n),
            |i: int| sorted[sorted.len() - 1 - i],
        ),
        DropView::Custom(keep) => Seq::new(keep.len(), |i: int| sorted[keep[i] as int]),
    }
}

/// Whether the positions stand in ascending order.
pub open spec fn positions_ascend(keep: Seq<usize>) -> bool {
    forall|i: int, j: int| 0 <= i <= j < keep.len() ==> keep[i] <= keep[j]
}

/// Whether kept values stand in the order in which the drop clause leaves
/// them: ascending without the highest, descending without the lowest,
/// and for a custom clause ascending where its positions are.
pub open spec fn kept_in_order(drop: DropView, kept: Seq<i64>) -> bool {
    match drop {
        DropView::Non => true,
        DropView::Highest(_) => ascending(kept),
        DropView::Lowest(_) => descending(kept),
        DropView::Custom(keep) => positions_ascend(keep) ==> ascending(kept),
    }
}

/// What is kept of values in ascending order stands in the order of the
/// drop clause.
pub proof fn lemma_kept_in_order(sorted: Seq<i64>, drop: DropView)
    requires
        ascending(sorted),
        drop_applies(drop, sorted.len()),
    ensures
        !(drop is Non) ==> kept_in_order(drop, kept_of(sorted, drop)),
{
    let kept = kept_of(sorted, drop);
    match drop {
        DropView::Non => {},
        DropView::Highest(n) => {
            assert forall|i: int, j: int| 0 <= i <= j < kept.len() implies kept[i] <= kept[j] by {
                assert(kept[i] == sorted[i] && kept[j] == sorted[j]);
            }
        },
        DropView::Lowest(n) => {
            assert forall|i: int, j: int| 0 <= i <= j < kept.len() implies kept[i] >= kept[j] by {
                assert(kept[i] == sorted[sorted.len() - 1 - i]);
                assert(kept[j] == sorted[sorted.len() - 1 - j]);
            }
        },
        DropView::Custom(keep) => {
            if positions_ascend(keep) {
                assert(positions_below(keep, sorted.len()));
                assert forall|i: int, j: int| 0 <= i <= j < kept.len() implies kept[i]
                    <= kept[j] by {
                    assert(keep[i] <= keep[j]);
                    assert(keep[j] < sorted.len());
                    assert(kept[i] == sorted[keep[i] as int]);
                    assert(kept[j] == sorted[keep[j] as int]);
                }
            }
        },
    }
}

/// Applies the drop clause to values that stand in ascending order.
pub fn keep_from_sorted(sorted: Vec<i64>, drop: &Drop) -> (r: Vec<i64>)
    requires
        drop_applies(drop@, sorted@.len()),
    ensures
        r@ == kept_of(sorted@, drop@),
{
    match drop {
        Drop::Non => sorted,
        Drop::Highest(n) => {
            let mut out = sorted;
            let left: usize = if *n <= out.len() {
                out.len() - *n
            } else {
                0
            };
            out.truncate(left);
            assert(out@ =~= kept_of(sorted@, drop@));
            out
        },
        Drop::Lowest(n) => {
            let left: usize = if *n <= sorted.len() {
                sorted.len() - *n
            } else {
                0
            };
            let mut out: Vec<i64> = Vec::new();
            let mut i: usize = 0;
            while i < left
                invariant
                    i <= left <= sorted.len(),
                    out@.len() == i,
                    forall|j: int| 0 <= j < i ==> out@[j] == sorted@[sorted@.len() - 1 - j],
                decreases left - i,
            {
                out.push(sorted[sorted.len() - 1 - i]);
                i = i + 1;
            }
            assert(out@ =~= kept_of(sorted@, drop@));
            out
        },
        Drop::Custom(keep) => {
            let mut out: Vec<i64> = Vec::new();
            let mut i: usize = 0;
            while i < keep.len()
                invariant
                    i <= keep.len(),
                    positions_below(keep@, sorted@.len()),
                    out@.len() == i,
                    forall|j: int| 0 <= j < i ==> out@[j] == sorted@[keep@[j] as int],
                decreases keep.len() - i,
            {
                assert(keep@[i as int] < sorted@.len());
                out.push(sorted[keep[i]]);
                i = i + 1;
            }
            assert(out@ =~= kept_of(sorted@, drop@));
            out
        },
    }
}

/// Applies the drop clause to values in any order: without a clause the
/// values stay as they are; else they are put in ascending order first.
pub fn apply_drop(values: Vec<i64>, drop: &Drop) -> (r: Vec<i64>)
    requires
        drop_applies(drop@, values@.len()),
    ensures
        drop@ is Non ==> r@ == values@,
        !(drop@ is Non) ==> exists|sorted: Seq<i64>|
            ascending(sorted) && sorted.to_multiset() == values@.to_multiset() && r@ == kept_of(
                sorted,
                drop@,
            ),
        r@.len() == drop@.survivors(values@.len()),
        forall|i: int| 0 <= i < r@.len() ==> values@.contains(#[trigger] r@[i]),
        kept_in_order(drop@, r@),
{
    match drop {
        Drop::Non => values,
        _ => {
            let mut sorted = values;
            sort_ascending(&mut sorted);
            proof {
                sorted@.to_multiset_ensures();
                values@.to_multiset_ensures();
                lemma_kept_are_members(sorted@, drop@);
                lemma_kept_in_order(sorted@, drop@);
                assert forall|x: i64| sorted@.contains(x) implies values@.contains(x) by {
                    assert(sorted@.to_multiset().count(x) > 0);
                }
            }
            keep_from_sorted(sorted, drop)
        },
    }
}

/// What is kept of values is among them, and as many are kept as the
/// clause leaves.
pub proof fn lemma_kept_are_members(sorted: Seq<i64>, drop: DropView)
    requires
        drop_applies(drop, sorted.len()),
    ensures
        kept_of(sorted, drop).len() == drop.survivors(sorted.len()),
        forall|i: int|
            0 <= i < kept_of(sorted, drop).len() ==> sorted.contains(
                #[trigger] kept_of(sorted, drop)[i],
            ),
{
    let kept = kept_of(sorted, drop);
    assert forall|i: int| 0 <= i < kept.len() implies sorted.contains(#[trigger] kept[i]) by {
        match drop {
            DropView::Non => {
                assert(sorted[i] == kept[i]);
            },
            DropView::Highest(n) => {
                assert(sorted[i] == kept[i]);
            },
            DropView::Lowest(n) => {
                assert(sorted[sorted.len() - 1 - i] == kept[i]);
            },
            DropView::Custom(keep) => {
                assert(positions_below(keep, sorted.len()));
                assert(keep[i] < sorted.len());
                assert(sorted[keep[i] as int] == kept[i]);
            },
        }
    }
}


/// The greater of two integers.
pub open spec fn greater(a: int, b: int) -> int {
    if a >= b {
        a
    } else {
        b
    }
}

/// The lesser of two integers.
pub open spec fn lesser(a: int, b: int) -> int {
    if a <= b {
        a
    } else {
        b
    }
}

impl DiceView {
    /// The most values that one roll of the group may produce: one for
    /// each die, and for exploding dice [`EXPLOSION_LIMIT`] more for each.
    pub open spec fn most_rolled(self) -> nat {
        if self.explosive {
            (self.count * (EXPLOSION_LIMIT + 1)) as nat
        } else {
            self.count as nat
        }
    }

    /// The least number of values that are summed.
    pub open spec fn least_kept(self) -> nat {
        self.drop.survivors(self.count as nat)
    }

    /// The greatest number of values that are summed.
    pub open spec fn most_kept(self) -> nat {
        self.drop.survivors(self.most_rolled())
    }

    /// The least value that a die counts for once the cutoff clause has
    /// been applied.
    pub open spec fn least_face(self) -> int {
        lesser(self.cutoff.clamp(1) as int, self.cutoff.clamp(self.size) as int)
    }

    /// The greatest value that a die counts for once the cutoff clause has
    /// been applied.
    pub open spec fn greatest_face(self) -> int {
        greater(self.cutoff.clamp(1) as int, self.cutoff.clamp(self.size) as int)
    }

    /// The least sum of the values that are kept.
    pub open spec fn least_sum(self) -> int {
        if self.least_face() >= 0 {
            self.least_kept() * self.least_face()
        } else {
            self.most_kept() * self.least_face()
        }
    }

    /// The greatest sum of the values that are kept.
    pub open spec fn greatest_sum(self) -> int {
        if self.greatest_face() >= 0 {
            self.most_kept() * self.greatest_face()
        } else {
            self.least_kept() * self.greatest_face()
        }
    }

    /// The least subtotal of the group.
    pub open spec fn least_total(self) -> int {
        match self.op {
            DiceOp::Add => self.least_sum(),
            DiceOp::Sub => -self.greatest_sum(),
        }
    }

    /// The greatest subtotal of the group.
    pub open spec fn greatest_total(self) -> int {
        match self.op {
            DiceOp::Add => self.greatest_sum(),
            DiceOp::Sub => -self.least_sum(),
        }
    }

    /// Whether the group can be rolled: its dice have a side at least and
    /// fewer than `i64::MAX` sides, the values of one roll can be counted
    /// in `usize`, the positions that a custom drop clause keeps exist,
    /// and every subtotal that may come fits in `i64`.
    pub open spec fn can_roll(self) -> bool {
        &&& 1 <= self.size < i64::MAX
        &&& self.most_rolled() <= usize::MAX
        &&& drop_applies(self.drop, self.count as nat)
        &&& fits_i64(self.least_total())
        &&& fits_i64(self.greatest_total())
    }

    /// Whether the kept values `results` with the subtotal `total` may
    /// come of one roll of the group: they are as many as the group may
    /// keep, each lies between the faces of the group, they stand in the
    /// order of the drop clause, and the subtotal is their sum with the
    /// operator of the group applied.
    pub open spec fn admits(self, results: Seq<i64>, total: i64) -> bool {
        &&& self.least_kept() <= results.len() <= self.most_kept()
        &&& all_within(results, self.least_face(), self.greatest_face())
        &&& kept_in_order(self.drop, results)
        &&& total == self.op.apply(0, sum_of(results))
    }
}

/// A cutoff clause brings every value of a die between the least and the
/// greatest face of the group.
pub proof fn lemma_clamp_bounds(d: DiceView, val: i64)
    requires
        1 <= val <= d.size,
    ensures
        d.least_face() <= d.cutoff.clamp(val) <= d.greatest_face(),
{
}

/// What a group admits lies between its least and its greatest subtotal.
pub proof fn lemma_admitted_total(d: DiceView, results: Seq<i64>, total: i64)
    requires
        d.admits(results, total),
    ensures
        d.least_total() <= total <= d.greatest_total(),
{
    lemma_kept_total(d, results);
}

/// The subtotal of kept values that lie between the faces of the group,
/// and are as many as the group may keep, lies between its least and its
/// greatest subtotal.
pub proof fn lemma_kept_total(d: DiceView, results: Seq<i64>)
    requires
        d.least_kept() <= results.len() <= d.most_kept(),
        all_within(results, d.least_face(), d.greatest_face()),
    ensures
        d.least_total() <= d.op.apply(0, sum_of(results)) <= d.greatest_total(),
{
    let n = results.len() as int;
    let lo = d.least_face();
    let hi = d.greatest_face();
    let a = d.least_kept() as int;
    let b = d.most_kept() as int;
    lemma_sum_bounds(results, lo, hi);
    if lo >= 0 {
        assert(a * lo <= n * lo) by (nonlinear_arith)
            requires
                a <= n,
                lo >= 0,
        ;
    } else {
        assert(b * lo <= n * lo) by (nonlinear_arith)
            requires
                n <= b,
                lo < 0,
        ;
    }
    if hi >= 0 {
        assert(n * hi <= b * hi) by (nonlinear_arith)
            requires
                n <= b,
                hi >= 0,
        ;
    } else {
        assert(n * hi <= a * hi) by (nonlinear_arith)
            requires
                a <= n,
                hi < 0,
        ;
    }
}

/// What one group of dice showed in a roll.
#[derive(Debug, Clone, PartialEq, Eq)]
pub struct DiceResult {
    /// The group that was rolled.
    pub dice: Dice,
    /// The values that were kept.
    pub results: Vec<i64>,
    /// Their sum, added to nothing or subtracted from it as the operator
    /// of the group says.
    pub total: i64,
}

/// The flat bonuses of a bag and what they come to.
#[derive(Debug, Clone, PartialEq, Eq)]
pub struct BonusResult {
    pub boni: Vec<i64>,
    pub total: i64,
}

impl BonusResult {
    /// No bonus yet.
    pub fn new() -> (r: BonusResult)
        ensures
            r.boni@ == Seq::<i64>::empty(),
            r.total == 0,
    {
        BonusResult { boni: Vec::new(), total: 0 }
    }

    /// What the bonuses come to.
    pub fn total(&self) -> (r: i64)
        ensures
            r == self.total,
    {
        self.total
    }
}

impl DiceResult {
    /// The report of a group with the values that were kept of it. The
    /// subtotal is computed here.
    pub fn new(dice: &Dice, results: Vec<i64>) -> (r: DiceResult)
        requires
            fits_i64(dice.op.apply(0, sum_of(results@))),
        ensures
            r.dice@ == dice@,
            r.results == results,
            r.total == dice.op.apply(0, sum_of(results@)),
    {
        let mut sum: i128 = 0;
        let mut i: usize = 0;
        assert(results@.take(0) =~= Seq::<i64>::empty());
        while i < results.len()
            invariant
                i <= results.len(),
                sum == sum_of(results@.take(i as int)),
                -0x8000_0000_0000_0000 * i <= sum <= 0x8000_0000_0000_0000 * i,
            decreases results.len() - i,
        {
            proof {
                assert(results@.take(i + 1).drop_last() =~= results@.take(i as int));
            }
            sum = sum + results[i] as i128;
            i = i + 1;
        }
        assert(results@.take(results.len() as int) =~= results@);
        let total: i64 = match dice.op {
            DiceOp::Add => sum as i64,
            DiceOp::Sub => (-sum) as i64,
        };
        DiceResult { dice: dice.duplicate(), results, total }
    }

    /// The subtotal of the group.
    pub fn total(&self) -> (r: i64)
        ensures
            r == self.total,
    {
        self.total
    }
}

/// The sum of the subtotals of the groups.
pub open spec fn totals_sum(groups: Seq<DiceResult>) -> int
    decreases groups.len(),
{
    if groups.len() == 0 {
        0
    } else {
        totals_sum(groups.drop_last()) + groups.last().total
    }
}

/// The report of one roll of a bag.
#[derive(Debug, Clone, PartialEq, Eq)]
pub struct RollResults {
    /// One report for each group of dice, in the order of the bag.
    pub dice_groups: Vec<DiceResult>,
    pub bonus: BonusResult,
    /// The subtotals of the groups and of the bonuses together.
    pub total: i64,
}

impl RollResults {
    /// The report of nothing rolled.
    pub fn new_empty() -> (r: RollResults)
        ensures
            r.dice_groups@ == Seq::<DiceResult>::empty(),
            r.bonus.boni@ == Seq::<i64>::empty(),
            r.bonus.total == 0,
            r.total == 0,
    {
        RollResults { dice_groups: Vec::new(), bonus: BonusResult::new(), total: 0 }
    }

    /// Adds the report of a group of dice and its subtotal.
    pub fn add_dice_result(&mut self, dice: DiceResult)
        requires
            fits_i64(old(self).total + dice.total),
        ensures
            final(self).dice_groups@ == old(self).dice_groups@.push(dice),
            final(self).bonus == old(self).bonus,
            final(self).total == old(self).total + dice.total,
    {
        self.total = self.total + dice.total;
        self.dice_groups.push(dice);
    }

    /// Takes a bonus in: its operator is applied to what the bonuses came
    /// to so far and to its amount, and the result is added to what the
    /// bonuses come to and to the total.
    pub fn add_to_bonus(&mut self, b: &Bonus)
        requires
            fits_i64(bonus_step(old(self).bonus.total as int, *b)),
            fits_i64(old(self).bonus.total + bonus_step(old(self).bonus.total as int, *b)),
            fits_i64(old(self).total + bonus_step(old(self).bonus.total as int, *b)),
        ensures
            final(self).dice_groups == old(self).dice_groups,
            final(self).bonus.boni@ == old(self).bonus.boni@.push(b.bonus),
            final(self).bonus.total == old(self).bonus.total + bonus_step(
                old(self).bonus.total as int,
                *b,
            ),
            final(self).total == old(self).total + bonus_step(old(self).bonus.total as int, *b),
    {
        let sub_total = b.op.operate(self.bonus.total, b.bonus);
        self.bonus.total = self.bonus.total + sub_total;
        self.total = self.total + sub_total;
        self.bonus.boni.push(b.bonus);
    }

    /// The total of the roll.
    pub fn total(&self) -> (r: i64)
        ensures
            r == self.total,
    {
        self.total
    }

    /// The bonuses of the roll.
    pub fn get_bonus(&self) -> (r: &BonusResult)
        ensures
            r == self.bonus,
    {
        &self.bonus
    }

    /// The reports of the groups of dice, in the order of the bag.
    pub fn get_dice_groups(&self) -> (r: &[DiceResult])
        ensures
            r@ == self.dice_groups@,
    {
        self.dice_groups.as_slice()
    }
}

/// What a bonus adds to the total: its operator applied to what the
/// bonuses before it came to and to its amount.
pub open spec fn bonus_step(before: int, b: Bonus) -> int {
    b.op.apply(before, b.bonus as int)
}


/// The groups of dice among the groups, in their order.
pub open spec fn dice_in(groups: Seq<DiceGroupView>) -> Seq<DiceView>
    decreases groups.len(),
{
    if groups.len() == 0 {
        Seq::empty()
    } else {
        match groups.last() {
            DiceGroupView::Dice(d) => dice_in(groups.drop_last()).push(d),
            DiceGroupView::Bonus(_) => dice_in(groups.drop_last()),
        }
    }
}

/// The amounts of the bonuses among the groups, in their order.
pub open spec fn boni_in(groups: Seq<DiceGroupView>) -> Seq<i64>
    decreases groups.len(),
{
    if groups.len() == 0 {
        Seq::empty()
    } else {
        match groups.last() {
            DiceGroupView::Dice(_) => boni_in(groups.drop_last()),
            DiceGroupView::Bonus(b) => boni_in(groups.drop_last()).push(b.bonus),
        }
    }
}

/// What the bonuses among the groups come to in a roll: each bonus adds
/// [`bonus_step`] of what the bonuses before it came to.
pub open spec fn bonus_total_of(groups: Seq<DiceGroupView>) -> int
    decreases groups.len(),
{
    if groups.len() == 0 {
        0
    } else {
        let before = bonus_total_of(groups.drop_last());
        match groups.last() {
            DiceGroupView::Dice(_) => before,
            DiceGroupView::Bonus(b) => before + bonus_step(before, b),
        }
    }
}

/// The least total that a roll of the groups may give.
pub open spec fn least_total_of(groups: Seq<DiceGroupView>) -> int
    decreases groups.len(),
{
    if groups.len() == 0 {
        0
    } else {
        let before = least_total_of(groups.drop_last());
        match groups.last() {
            DiceGroupView::Dice(d) => before + d.least_total(),
            DiceGroupView::Bonus(b) => before + bonus_step(
                bonus_total_of(groups.drop_last()),
                b,
            ),
        }
    }
}

/// The greatest total that a roll of the groups may give.
pub open spec fn greatest_total_of(groups: Seq<DiceGroupView>) -> int
    decreases groups.len(),
{
    if groups.len() == 0 {
        0
    } else {
        let before = greatest_total_of(groups.drop_last());
        match groups.last() {
            DiceGroupView::Dice(d) => before + d.greatest_total(),
            DiceGroupView::Bonus(b) => before + bonus_step(
                bonus_total_of(groups.drop_last()),
                b,
            ),
        }
    }
}

/// Whether the groups can be rolled: each group of dice can, and whatever
/// the dice show, every amount that the roll computes on its way fits in
/// `i64`.
pub open spec fn rollable(groups: Seq<DiceGroupView>) -> bool
    decreases groups.len(),
{
    if groups.len() == 0 {
        true
    } else {
        &&& rollable(groups.drop_last())
        &&& match groups.last() {
            DiceGroupView::Dice(d) => d.can_roll(),
            DiceGroupView::Bonus(b) => fits_i64(
                bonus_step(bonus_total_of(groups.drop_last()), b),
            ) && fits_i64(bonus_total_of(groups)),
        }
        &&& fits_i64(least_total_of(groups))
        &&& fits_i64(greatest_total_of(groups))
    }
}

/// Groups that can be rolled can be rolled up to any of them.
pub proof fn lemma_rollable_prefix(groups: Seq<DiceGroupView>, k: int)
    requires
        rollable(groups),
        0 <= k <= groups.len(),
    ensures
        rollable(groups.take(k)),
    decreases groups.len(),
{
    if k == groups.len() {
        assert(groups.take(k) =~= groups);
    } else {
        assert(groups.drop_last().take(k) =~= groups.take(k));
        lemma_rollable_prefix(groups.drop_last(), k);
    }
}

/// Whether the reports may come of one roll of the groups of dice, one
/// report for each group.
pub open spec fn reports_admitted(dice: Seq<DiceView>, reports: Seq<DiceResult>) -> bool {
    &&& reports.len() == dice.len()
    &&& forall|j: int|
        0 <= j < dice.len() ==> (#[trigger] reports[j]).dice@ == dice[j] && dice[j].admits(
            reports[j].results@,
            reports[j].total,
        )
}

/// Whether the report may come of one roll of the groups: it holds a
/// report for each group of dice that the group admits, the amounts of
/// the bonuses and what they come to, and the total of all of these.
pub open spec fn admitted(groups: Seq<DiceGroupView>, r: RollResults) -> bool {
    &&& reports_admitted(dice_in(groups), r.dice_groups@)
    &&& r.bonus.boni@ == boni_in(groups)
    &&& r.bonus.total == bonus_total_of(groups)
    &&& r.total == bonus_total_of(groups) + totals_sum(r.dice_groups@)
}

/// How many of `n` values the drop clause leaves.
fn survivors_of(drop: &Drop, n: usize) -> (r: usize)
    ensures
        r == drop@.survivors(n as nat),
{
    match drop {
        Drop::Non => n,
        Drop::Highest(k) | Drop::Lowest(k) => if *k <= n {
            n - *k
        } else {
            0
        },
        Drop::Custom(keep) => keep.len(),
    }
}

/// Whether the drop clause can be applied to `n` values.
fn drop_fits(drop: &Drop, n: usize) -> (r: bool)
    ensures
        r == drop_applies(drop@, n as nat),
{
    match drop {
        Drop::Custom(keep) => {
            let mut i: usize = 0;
            while i < keep.len()
                invariant
                    i <= keep.len(),
                    drop@ == DropView::Custom(keep@),
                    forall|j: int| 0 <= j < i ==> (#[trigger] keep@[j]) < n,
                decreases keep.len() - i,
            {
                if keep[i] >= n {
                    assert(!positions_below(keep@, n as nat)) by {
                        assert(!(keep@[i as int] < n));
                    }
                    return false;
                }
                i = i + 1;
            }
            true
        },
        _ => true,
    }
}

impl Dice {
    /// The least and the greatest subtotal that a roll of the group may
    /// give, or `None` when the group cannot be rolled.
    pub fn total_bounds(&self) -> (r: Option<(i64, i64)>)
        ensures
            r is Some <==> self@.can_roll(),
            r matches Some((lo, hi)) ==> lo == self@.least_total() && hi == self@.greatest_total(),
    {
        if self.size < 1 || self.size == i64::MAX {
            return None;
        }
        let most_rolled: u128 = if self.explosive {
            (self.count as u128) * (EXPLOSION_LIMIT as u128 + 1)
        } else {
            self.count as u128
        };
        if most_rolled > usize::MAX as u128 {
            return None;
        }
        if !drop_fits(&self.drop, self.count) {
            return None;
        }
        let least_kept = survivors_of(&self.drop, self.count);
        let most_kept = survivors_of(&self.drop, most_rolled as usize);
        let mut low: i64 = 1;
        let mut high: i64 = self.size;
        self.cutoff.use_to_cut_off(&mut low);
        self.cutoff.use_to_cut_off(&mut high);
        let (least_face, greatest_face): (i64, i64) = if low <= high {
            (low, high)
        } else {
            (high, low)
        };
        proof {
            lemma_face_times_count(least_face as int, least_kept as int);
            lemma_face_times_count(least_face as int, most_kept as int);
            lemma_face_times_count(greatest_face as int, least_kept as int);
            lemma_face_times_count(greatest_face as int, most_kept as int);
            assert(least_kept * least_face == least_face * least_kept) by (nonlinear_arith);
            assert(most_kept * least_face == least_face * most_kept) by (nonlinear_arith);
            assert(least_kept * greatest_face == greatest_face * least_kept) by (nonlinear_arith);
            assert(most_kept * greatest_face == greatest_face * most_kept) by (nonlinear_arith);
        }
        let least_sum: i128 = if least_face >= 0 {
            (least_face as i128) * (least_kept as i128)
        } else {
            (least_face as i128) * (most_kept as i128)
        };
        let greatest_sum: i128 = if greatest_face >= 0 {
            (greatest_face as i128) * (most_kept as i128)
        } else {
            (greatest_face as i128) * (least_kept as i128)
        };
        let (lo, hi): (i128, i128) = match self.op {
            DiceOp::Add => (least_sum, greatest_sum),
            DiceOp::Sub => (-greatest_sum, -least_sum),
        };
        if lo < i64::MIN as i128 || lo > i64::MAX as i128 || hi < i64::MIN as i128 || hi
            > i64::MAX as i128 {
            return None;
        }
        Some((lo as i64, hi as i64))
    }

    /// The values that the dice of the group show: one for each die, and
    /// for exploding dice what [`explode`] adds for each.
    pub fn roll_all(&self) -> (r: Vec<i64>)
        requires
            1 <= self.size < i64::MAX,
            self@.most_rolled() <= usize::MAX,
        ensures
            self.count <= r@.len() <= self@.most_rolled(),
            all_within(r@, 1, self.size as int),
    {
        let mut answer: Vec<i64> = Vec::new();
        let mut k: usize = 0;
        while k < self.count
            invariant
                1 <= self.size < i64::MAX,
                self@.most_rolled() <= usize::MAX,
                k <= self.count,
                k <= answer@.len(),
                !self.explosive ==> answer@.len() == k,
                self.explosive ==> answer@.len() <= k * (EXPLOSION_LIMIT + 1),
                all_within(answer@, 1, self.size as int),
            decreases self.count - k,
        {
            if !self.explosive {
                let roll = roll_die(self.size);
                answer.push(roll);
            } else {
                let ghost before = answer@;
                explode(&mut answer, self.size);
                assert forall|i: int| 0 <= i < answer@.len() implies 1 <= #[trigger] answer@[i]
                    <= self.size by {
                    if i < before.len() {
                        assert(answer@.take(before.len() as int)[i] == before[i]);
                    }
                }
            }
            k = k + 1;
        }
        answer
    }

    /// Rolls the group once: the dice are rolled, the reroll clause and the
    /// cutoff clause are applied to what they show, the drop clause picks
    /// what is kept, and the kept values are summed.
    pub fn roll(&self) -> (r: DiceResult)
        requires
            self@.can_roll(),
        ensures
            r.dice@ == self@,
            self@.admits(r.results@, r.total),
    {
        let mut answer = self.roll_all();
        let ghost rolled = answer@;
        reroll_values(&mut answer, &self.reroll, self.size);
        let ghost again = answer@;
        assert(all_within(again, 1, self.size as int)) by {
            assert forall|i: int| 0 <= i < again.len() implies 1 <= #[trigger] again[i]
                <= self.size by {
                assert(1 <= rolled[i] <= self.size);
            }
        }
        cut_off_values(&mut answer, &self.cutoff);
        let ghost cut = answer@;
        assert(all_within(cut, self@.least_face(), self@.greatest_face())) by {
            assert forall|i: int| 0 <= i < cut.len() implies self@.least_face() <= #[trigger] cut[i]
                <= self@.greatest_face() by {
                assert(1 <= again[i] <= self.size);
                lemma_clamp_bounds(self@, again[i]);
            }
        }
        assert(drop_applies(self.drop@, cut.len())) by {
            if let DropView::Custom(keep) = self.drop@ {
                assert(positions_below(keep, self.count as nat));
                assert forall|i: int| 0 <= i < keep.len() implies (#[trigger] keep[i])
                    < cut.len() by {}
            }
        }
        let kept = apply_drop(answer, &self.drop);
        proof {
            assert(all_within(kept@, self@.least_face(), self@.greatest_face())) by {
                assert forall|i: int| 0 <= i < kept@.len() implies self@.least_face()
                    <= #[trigger] kept@[i] <= self@.greatest_face() by {
                    assert(cut.contains(kept@[i]));
                }
            }
            lemma_kept_total(self@, kept@);
        }
        DiceResult::new(self, kept)
    }
}

impl DiceBag {
    /// Whether the report may come of one roll of the bag.
    pub open spec fn admits(&self, r: RollResults) -> bool {
        admitted(self.groups(), r)
    }

    /// Whether the range of the bag holds every total that a roll may
    /// give: the bag is well formed, its range holds its dice, and its
    /// bonuses come to the same in a roll as when each is counted once.
    pub open spec fn range_holds_totals(&self) -> bool {
        &&& self.wf()
        &&& crate::laws::range_holds_dice(self.groups())
        &&& bonus_total_of(self.groups()) == crate::laws::plain_bonus_of(self.groups())
    }

    /// Whether the bag can be rolled.
    pub fn is_rollable(&self) -> (r: bool)
        ensures
            r == rollable(self.groups()),
    {
        let ghost groups = self.groups();
        let mut bonus: i64 = 0;
        let mut least: i64 = 0;
        let mut greatest: i64 = 0;
        let mut i: usize = 0;
        assert(groups.take(0) =~= Seq::<DiceGroupView>::empty());
        while i < self.dice.len()
            invariant
                i <= self.dice.len(),
                groups == views_of(self.dice@),
                rollable(groups.take(i as int)),
                bonus == bonus_total_of(groups.take(i as int)),
                least == least_total_of(groups.take(i as int)),
                greatest == greatest_total_of(groups.take(i as int)),
            decreases self.dice.len() - i,
        {
            proof {
                assert(groups.take(i + 1).drop_last() =~= groups.take(i as int));
                assert(groups.take(i + 1).last() == self.dice@[i as int]@);
                if rollable(groups) {
                    lemma_rollable_prefix(groups, i + 1);
                }
            }
            let (step_low, step_high): (i128, i128) = match &self.dice[i] {
                DiceGroup::Bonus(b) => {
                    let sub: i128 = match b.op {
                        DiceOp::Add => bonus as i128 + b.bonus as i128,
                        DiceOp::Sub => bonus as i128 - b.bonus as i128,
                    };
                    let next: i128 = bonus as i128 + sub;
                    if sub < i64::MIN as i128 || sub > i64::MAX as i128 || next < i64::MIN as i128
                        || next > i64::MAX as i128 {
                        return false;
                    }
                    bonus = next as i64;
                    (sub, sub)
                },
                DiceGroup::Dice(d) => match d.total_bounds() {
                    Some((lo, hi)) => (lo as i128, hi as i128),
                    None => {
                        return false;
                    },
                },
            };
            let next_least: i128 = least as i128 + step_low;
            let next_greatest: i128 = greatest as i128 + step_high;
            if next_least < i64::MIN as i128 || next_least > i64::MAX as i128 || next_greatest
                < i64::MIN as i128 || next_greatest > i64::MAX as i128 {
                return false;
            }
            least = next_least as i64;
            greatest = next_greatest as i64;
            i = i + 1;
        }
        assert(groups.take(groups.len() as int) =~= groups);
        true
    }

    /// Rolls the bag once: every group of dice is rolled, every bonus is
    /// taken in, and the report holds what came of each and the total.
    /// Each call rolls anew.
    pub fn roll(&self) -> (r: RollResults)
        requires
            rollable(self.groups()),
        ensures
            self.admits(r),
            least_total_of(self.groups()) <= r.total <= greatest_total_of(self.groups()),
            self.range_holds_totals() ==> self.range.lo() <= r.total <= self.range.hi(),
    {
        let ghost groups = self.groups();
        let mut final_result = RollResults::new_empty();
        let mut i: usize = 0;
        assert(groups.take(0) =~= Seq::<DiceGroupView>::empty());
        while i < self.dice.len()
            invariant
                i <= self.dice.len(),
                groups == views_of(self.dice@),
                rollable(groups),
                admitted(groups.take(i as int), final_result),
                least_total_of(groups.take(i as int)) <= final_result.total <= greatest_total_of(
                    groups.take(i as int),
                ),
            decreases self.dice.len() - i,
        {
            let ghost before = final_result;
            proof {
                assert(groups.take(i + 1).drop_last() =~= groups.take(i as int));
                assert(groups.take(i + 1).last() == self.dice@[i as int]@);
                lemma_rollable_prefix(groups, i + 1);
            }
            match &self.dice[i] {
                DiceGroup::Bonus(b) => {
                    final_result.add_to_bonus(b);
                },
                DiceGroup::Dice(d) => {
                    let report = d.roll();
                    proof {
                        lemma_admitted_total(d@, report.results@, report.total);
                    }
                    final_result.add_dice_result(report);
                    proof {
                        assert(final_result.dice_groups@.drop_last() =~= before.dice_groups@);
                    }
                },
            }
            i = i + 1;
        }
        assert(groups.take(groups.len() as int) =~= groups);
        proof {
            if self.range_holds_totals() {
                crate::laws::lemma_total_within_range(groups, final_result);
            }
        }
        final_result
    }
}

} // verus!
