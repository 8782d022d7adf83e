//! Back from a bag, and from the report of a roll, to text.
//!
//! A bag that was parsed is written so that it parses again into the same
//! bag: the groups in their order, each dice group as its count, a `d`,
//! its size, its modifiers and its `!`.

use crate::distribution::{
    CutOff, Dice, DiceBag, DiceGroup, DiceGroupView, DiceOp, DiceView, Drop, DropView, ReRoll,
};
use crate::roll::{DiceResult, RollResults};
use crate::text::{decimal, put, put_number, put_signed, signed_decimal};
use vstd::prelude::*;

verus! {

/// How far an integer is from zero.
pub open spec fn magnitude(x: int) -> nat {
    if x < 0 {
        (-x) as nat
    } else {
        x as nat
    }
}

/// How far an integer is from zero.
fn magnitude_of(x: i64) -> (r: u64)
    ensures
        r == magnitude(x as int),
{
    if x < 0 {
        (-(x as i128)) as u64
    } else {
        x as u64
    }
}

/// The text of a custom drop clause on `count` dice: the first kept
/// position as the number of lowest dice to drop, and what lies above the
/// last kept position as the number of highest dice to drop. A clause
/// that keeps nothing has no text.
pub open spec fn custom_notation(keep: Seq<usize>, count: usize) -> Seq<char> {
    if keep.len() == 0 {
        Seq::empty()
    } else {
        "dl"@ + decimal(keep.first() as nat) + "dh"@ + decimal(
            if keep.last() < count {
                (count - 1 - keep.last()) as nat
            } else {
                0
            },
        )
    }
}

/// The text of a drop clause on `count` dice.
pub open spec fn drop_notation(drop: DropView, count: usize) -> Seq<char> {
    match drop {
        DropView::Non => Seq::empty(),
        DropView::Highest(n) => "dh"@ + decimal(n as nat),
        DropView::Lowest(n) => "dl"@ + decimal(n as nat),
        DropView::Custom(keep) => custom_notation(keep, count),
    }
}

/// The text of a reroll clause.
pub open spec fn reroll_notation(reroll: ReRoll) -> Seq<char> {
    match reroll {
        ReRoll::Never => Seq::empty(),
        ReRoll::IfAbove(t) => "rr"@ + decimal(t.count as nat) + "ab"@ + signed_decimal(
            t.ex_threshold as int,
        ),
        ReRoll::IfBelow(t) => "rr"@ + decimal(t.count as nat) + "be"@ + signed_decimal(
            t.ex_threshold as int,
        ),
    }
}

/// The text of a cutoff clause.
pub open spec fn cutoff_notation(cutoff: CutOff) -> Seq<char> {
    match cutoff {
        CutOff::Non => Seq::empty(),
        CutOff::Minimum(m) => "mn"@ + signed_decimal(m as int),
        CutOff::Maximum(m) => "mx"@ + signed_decimal(m as int),
        CutOff::Both(mm) => "mn"@ + signed_decimal(mm.lo()) + "mx"@ + signed_decimal(mm.hi()),
    }
}

/// The text of the explosive mark.
pub open spec fn mark_notation(explosive: bool) -> Seq<char> {
    if explosive {
        "!"@
    } else {
        Seq::empty()
    }
}

/// The text of a group of dice, without its operator: the count, a `d`,
/// the size, the drop clause, the reroll clause, the cutoff clause, and
/// the explosive mark.
pub open spec fn dice_notation(d: DiceView) -> Seq<char> {
    decimal(d.count as nat) + "d"@ + signed_decimal(d.size as int) + drop_notation(
        d.drop,
        d.count,
    ) + reroll_notation(d.reroll) + cutoff_notation(d.cutoff) + mark_notation(d.explosive)
}

/// What stands before a group: nothing before a first group that is
/// added and `-` before one that is subtracted; ` + ` or ` - ` before
/// every other group.
pub open spec fn joint(op: DiceOp, first: bool) -> Seq<char> {
    match op {
        DiceOp::Add => if first {
            Seq::empty()
        } else {
            " + "@
        },
        DiceOp::Sub => if first {
            "-"@
        } else {
            " - "@
        },
    }
}

/// The text of a group with what stands before it.
pub open spec fn group_notation(g: DiceGroupView, first: bool) -> Seq<char> {
    match g {
        DiceGroupView::Dice(d) => joint(d.op, first) + dice_notation(d),
        DiceGroupView::Bonus(b) => joint(b.op, first) + signed_decimal(b.bonus as int),
    }
}

/// The text of a bag: its groups in their order.
pub open spec fn bag_notation(groups: Seq<DiceGroupView>) -> Seq<char>
    decreases groups.len(),
{
    if groups.len() == 0 {
        Seq::empty()
    } else {
        bag_notation(groups.drop_last()) + group_notation(groups.last(), groups.len() == 1)
    }
}

/// Appends what stands before a group.
fn put_joint(out: &mut String, op: DiceOp, first: bool)
    ensures
        final(out)@ == old(out)@ + joint(op, first),
{
    let ghost before = out@;
    match op {
        DiceOp::Add => {
            if !first {
                put(out, " + ");
            }
        },
        DiceOp::Sub => {
            if first {
                put(out, "-");
            } else {
                put(out, " - ");
            }
        },
    }
    assert(out@ =~= before + joint(op, first));
}

/// Appends the text of a drop clause on `count` dice.
fn put_drop(out: &mut String, drop: &Drop, count: usize)
    ensures
        final(out)@ == old(out)@ + drop_notation(drop@, count),
{
    let ghost before = out@;
    match drop {
        Drop::Non => {},
        Drop::Highest(n) => {
            put(out, "dh");
            put_number(out, *n as u64);
        },
        Drop::Lowest(n) => {
            put(out, "dl");
            put_number(out, *n as u64);
        },
        Drop::Custom(keep) => {
            if keep.len() > 0 {
                let low = keep[0];
                let last = keep[keep.len() - 1];
                let high: usize = if last < count {
                    count - 1 - last
                } else {
                    0
                };
                put(out, "dl");
                put_number(out, low as u64);
                put(out, "dh");
                put_number(out, high as u64);
            }
        },
    }
    assert(out@ =~= before + drop_notation(drop@, count));
}

/// Appends the text of a reroll clause.
fn put_reroll(out: &mut String, reroll: &ReRoll)
    ensures
        final(out)@ == old(out)@ + reroll_notation(*reroll),
{
    let ghost before = out@;
    match reroll {
        ReRoll::Never => {},
        ReRoll::IfAbove(t) => {
            put(out, "rr");
            put_number(out, t.count as u64);
            put(out, "ab");
            put_signed(out, t.ex_threshold);
        },
        ReRoll::IfBelow(t) => {
            put(out, "rr");
            put_number(out, t.count as u64);
            put(out, "be");
            put_signed(out, t.ex_threshold);
        },
    }
    assert(out@ =~= before + reroll_notation(*reroll));
}

/// Appends the text of a cutoff clause.
fn put_cutoff(out: &mut String, cutoff: &CutOff)
    ensures
        final(out)@ == old(out)@ + cutoff_notation(*cutoff),
{
    let ghost before = out@;
    match cutoff {
        CutOff::Non => {},
        CutOff::Minimum(m) => {
            put(out, "mn");
            put_signed(out, *m);
        },
        CutOff::Maximum(m) => {
            put(out, "mx");
            put_signed(out, *m);
        },
        CutOff::Both(mm) => {
            put(out, "mn");
            put_signed(out, mm.0[0]);
            put(out, "mx");
            put_signed(out, mm.0[1]);
        },
    }
    assert(out@ =~= before + cutoff_notation(*cutoff));
}

/// Appends the text of a group of dice, without its operator.
fn put_dice(out: &mut String, d: &Dice)
    ensures
        final(out)@ == old(out)@ + dice_notation(d@),
{
    let ghost before = out@;
    put_number(out, d.count as u64);
    put(out, "d");
    put_signed(out, d.size);
    put_drop(out, &d.drop, d.count);
    put_reroll(out, &d.reroll);
    put_cutoff(out, &d.cutoff);
    if d.explosive {
        put(out, "!");
    }
    assert(out@ =~= before + dice_notation(d@));
}

impl Dice {
    /// The text of the group, without its operator: `3d6dl1`.
    pub fn notation(&self) -> (r: String)
        ensures
            r@ == dice_notation(self@),
    {
        let mut out = String::new();
        put_dice(&mut out, self);
        assert(out@ =~= dice_notation(self@));
        out
    }
}

impl DiceBag {
    /// The text of the bag: `3d6dl1 + 4`.
    pub fn notation(&self) -> (r: String)
        ensures
            r@ == bag_notation(self.groups()),
    {
        let ghost groups = self.groups();
        let mut out = String::new();
        let mut i: usize = 0;
        assert(groups.take(0) =~= Seq::<DiceGroupView>::empty());
        while i < self.dice.len()
            invariant
                i <= self.dice.len(),
                groups == self.groups(),
                out@ == bag_notation(groups.take(i as int)),
            decreases self.dice.len() - i,
        {
            proof {
                assert(groups.take(i + 1).drop_last() =~= groups.take(i as int));
                assert(groups.take(i + 1).last() == self.dice@[i as int]@);
            }
            match &self.dice[i] {
                DiceGroup::Dice(d) => {
                    let ghost before = out@;
                    put_joint(&mut out, d.op, i == 0);
                    put_dice(&mut out, d);
                    assert(out@ =~= before + (joint(d.op, i == 0) + dice_notation(d@)));
                },
                DiceGroup::Bonus(b) => {
                    let ghost before = out@;
                    put_joint(&mut out, b.op, i == 0);
                    put_signed(&mut out, b.bonus);
                    assert(out@ =~= before + (joint(b.op, i == 0) + signed_decimal(
                        b.bonus as int,
                    )));
                },
            }
            i = i + 1;
        }
        assert(groups.take(groups.len() as int) =~= groups);
        out
    }
}

/// The text of one kept value at the position `at`: the first value as
/// it is, in brackets when it is below zero; every other value after
/// ` + `, or after ` - ` without its sign.
pub open spec fn value_notation(val: i64, at: int) -> Seq<char> {
    if at == 0 {
        if val < 0 {
            "(-"@ + decimal(magnitude(val as int)) + ")"@
        } else {
            decimal(magnitude(val as int))
        }
    } else if val < 0 {
        " - "@ + decimal(magnitude(val as int))
    } else {
        " + "@ + decimal(magnitude(val as int))
    }
}

/// The text of the kept values, one after the other.
pub open spec fn values_notation(values: Seq<i64>) -> Seq<char>
    decreases values.len(),
{
    if values.len() == 0 {
        Seq::empty()
    } else {
        values_notation(values.drop_last()) + value_notation(values.last(), values.len() - 1)
    }
}

/// The text of the report of a group at the position `at`: the group as
/// in a bag, then in brackets the kept values and the subtotal.
pub open spec fn report_notation(dice: DiceView, results: Seq<i64>, total: i64, at: int) -> Seq<
    char,
> {
    joint(dice.op, at == 0) + dice_notation(dice) + "( "@ + values_notation(results) + " = "@
        + signed_decimal(total as int) + " )"@
}

/// The text of the reports, one after the other.
pub open spec fn reports_notation(reports: Seq<DiceResult>) -> Seq<char>
    decreases reports.len(),
{
    if reports.len() == 0 {
        Seq::empty()
    } else {
        reports_notation(reports.drop_last()) + report_notation(
            reports.last().dice@,
            reports.last().results@,
            reports.last().total,
            reports.len() - 1,
        )
    }
}

/// The text of what the bonuses came to: nothing for zero, else ` + ` or
/// ` - ` and the amount without its sign.
pub open spec fn bonus_notation(total: i64) -> Seq<char> {
    if total > 0 {
        " + "@ + decimal(magnitude(total as int))
    } else if total < 0 {
        " - "@ + decimal(magnitude(total as int))
    } else {
        Seq::empty()
    }
}

/// The text of the report of a roll: the reports of the groups, what the
/// bonuses came to, and the total.
pub open spec fn roll_notation(r: RollResults) -> Seq<char> {
    reports_notation(r.dice_groups@) + bonus_notation(r.bonus.total) + " (Total = "@
        + signed_decimal(r.total as int) + " )"@
}

/// Appends the text of the kept values.
fn put_values(out: &mut String, values: &Vec<i64>)
    ensures
        final(out)@ == old(out)@ + values_notation(values@),
{
    let ghost before = out@;
    let mut i: usize = 0;
    assert(values@.take(0) =~= Seq::<i64>::empty());
    assert(out@ =~= before + values_notation(values@.take(0)));
    while i < values.len()
        invariant
            i <= values.len(),
            out@ == before + values_notation(values@.take(i as int)),
        decreases values.len() - i,
    {
        let ghost so_far = out@;
        let ghost done = values_notation(values@.take(i as int));
        proof {
            assert(values@.take(i + 1).drop_last() =~= values@.take(i as int));
            assert(values@.take(i + 1).last() == values@[i as int]);
        }
        let x = values[i];
        if i == 0 {
            if x < 0 {
                put(out, "(-");
                put_number(out, magnitude_of(x));
                put(out, ")");
            } else {
                put_number(out, magnitude_of(x));
            }
        } else if x < 0 {
            put(out, " - ");
            put_number(out, magnitude_of(x));
        } else {
            put(out, " + ");
            put_number(out, magnitude_of(x));
        }
        assert(out@ =~= before + (done + value_notation(x, i as int)));
        i = i + 1;
    }
    assert(values@.take(values.len() as int) =~= values@);
}

impl RollResults {
    /// The text of the report: each group with the values that were kept
    /// of it, what the bonuses came to, and the total.
    pub fn notation(&self) -> (r: String)
        ensures
            r@ == roll_notation(*self),
    {
        let mut out = String::new();
        let mut i: usize = 0;
        assert(self.dice_groups@.take(0) =~= Seq::<DiceResult>::empty());
        while i < self.dice_groups.len()
            invariant
                i <= self.dice_groups.len(),
                out@ == reports_notation(self.dice_groups@.take(i as int)),
            decreases self.dice_groups.len() - i,
        {
            proof {
                assert(self.dice_groups@.take(i + 1).drop_last() =~= self.dice_groups@.take(
                    i as int,
                ));
                assert(self.dice_groups@.take(i + 1).last() == self.dice_groups@[i as int]);
            }
            let ghost before = out@;
            let report = &self.dice_groups[i];
            put_joint(&mut out, report.dice.op, i == 0);
            put_dice(&mut out, &report.dice);
            put(&mut out, "( ");
            put_values(&mut out, &report.results);
            put(&mut out, " = ");
            put_signed(&mut out, report.total);
            put(&mut out, " )");
            assert(out@ =~= before + report_notation(
                report.dice@,
                report.results@,
                report.total,
                i as int,
            ));
            i = i + 1;
        }
        assert(self.dice_groups@.take(self.dice_groups.len() as int) =~= self.dice_groups@);
        let ghost reports = out@;
        let bonus = self.bonus.total;
        if bonus > 0 {
            put(&mut out, " + ");
            put_number(&mut out, magnitude_of(bonus));
        } else if bonus < 0 {
            put(&mut out, " - ");
            put_number(&mut out, magnitude_of(bonus));
        }
        assert(out@ =~= reports + bonus_notation(bonus));
        put(&mut out, " (Total = ");
        put_signed(&mut out, self.total);
        put(&mut out, " )");
        out
    }
}

} // verus!
