//! The value model: dice groups, flat bonuses, the clauses that modify a
//! group, and the bag that holds them together with its range.

use std::collections::BTreeMap;
use vstd::prelude::*;

verus! {

/// Whether an integer can be held in an `i64`.
pub open spec fn fits_i64(x: int) -> bool {
    i64::MIN <= x <= i64::MAX
}

/// The indices `from, from + 1, .., to - 1`; empty when `to <= from`.
pub open spec fn index_run(from: usize, to: usize) -> Seq<usize> {
    Seq::new(
        if from <= to {
            (to - from) as nat
        } else {
            0
        },
        |i: int| (from + i) as usize,
    )
}

/// The indices `from .. to` as a vector.
pub fn index_range(from: usize, to: usize) -> (r: Vec<usize>)
    ensures
        r@ == index_run(from, to),
{
    let mut out: Vec<usize> = Vec::new();
    let mut i: usize = from;
    while i < to
        invariant
            from <= i,
            i <= to || i == from,
            out@ == index_run(from, i),
        decreases to - i,
    {
        out.push(i);
        i = i + 1;
        assert(out@ =~= index_run(from, i));
    }
    assert(out@ =~= index_run(from, to));
    out
}

/// A pair `[min, max]`.
#[derive(Debug, Clone, Copy, PartialEq, Eq)]
pub struct MinMax(pub [i64; 2]);

impl MinMax {
    /// The lower end.
    pub open spec fn lo(self) -> int {
        self.0[0] as int
    }

    /// The upper end.
    pub open spec fn hi(self) -> int {
        self.0[1] as int
    }

    /// Both ends, as integers.
    pub open spec fn ends(self) -> (int, int) {
        (self.lo(), self.hi())
    }
}

/// How a group combines with the running total.
#[derive(Debug, Clone, Copy, PartialEq, Eq, Structural)]
pub enum DiceOp {
    Add,
    Sub,
}

impl DiceOp {
    /// `acc + x` for `Add`, `acc - x` for `Sub`, over the integers.
    pub open spec fn apply(self, acc: int, x: int) -> int {
        match self {
            DiceOp::Add => acc + x,
            DiceOp::Sub => acc - x,
        }
    }

    /// Applies the operator to a running total and a new amount.
    pub fn operate(self, acc: i64, x: i64) -> (r: i64)
        requires
            fits_i64(self.apply(acc as int, x as int)),
        ensures
            r == self.apply(acc as int, x as int),
    {
        match self {
            DiceOp::Add => acc + x,
            DiceOp::Sub => acc - x,
        }
    }
}

/// Which of the rolled dice of a group are discarded before summing.
#[derive(Debug, Clone, PartialEq, Eq)]
pub enum Drop {
    /// Keep every die.
    Non,
    /// Discard the given number of highest dice.
    Highest(usize),
    /// Discard the given number of lowest dice.
    Lowest(usize),
    /// Keep the dice at these positions of the rolls sorted in ascending
    /// order.
    Custom(Vec<usize>),
}

/// The mathematical value of a [`Drop`]: the kept positions are a `Seq`.
pub enum DropView {
    Non,
    Highest(usize),
    Lowest(usize),
    Custom(Seq<usize>),
}

impl View for Drop {
    type V = DropView;

    open spec fn view(&self) -> DropView {
        match *self {
            Drop::Non => DropView::Non,
            Drop::Highest(n) => DropView::Highest(n),
            Drop::Lowest(n) => DropView::Lowest(n),
            Drop::Custom(v) => DropView::Custom(v@),
        }
    }
}

impl DropView {
    /// How many of `count` dice are left once the clause has been applied.
    /// A clause cannot discard more dice than there are.
    pub open spec fn survivors(self, count: nat) -> nat {
        match self {
            DropView::Non => count,
            DropView::Highest(n) | DropView::Lowest(n) => if n <= count {
                (count - n) as nat
            } else {
                0
            },
            DropView::Custom(keep) => keep.len(),
        }
    }
}

impl Drop {
    /// The clause that discards nothing.
    pub fn non() -> (r: Drop)
        ensures
            r@ == DropView::Non,
    {
        Drop::Non
    }

    /// The clause that discards nothing.
    pub fn all() -> (r: Drop)
        ensures
            r@ == DropView::Non,
    {
        Drop::Non
    }

    /// The clause that discards the `n` highest dice.
    pub fn highest(n: usize) -> (r: Drop)
        ensures
            r@ == DropView::Highest(n),
    {
        Drop::Highest(n)
    }

    /// The clause that discards the `n` lowest dice.
    pub fn lowest(n: usize) -> (r: Drop)
        ensures
            r@ == DropView::Lowest(n),
    {
        Drop::Lowest(n)
    }

    /// The clause that keeps the dice at the positions `v` of the sorted
    /// rolls.
    pub fn custom(v: Vec<usize>) -> (r: Drop)
        ensures
            r@ == DropView::Custom(v@),
    {
        Drop::Custom(v)
    }

    /// A copy of the clause.
    pub fn duplicate(&self) -> (r: Drop)
        ensures
            r@ == self@,
    {
        match self {
            Drop::Non => Drop::Non,
            Drop::Highest(n) => Drop::Highest(*n),
            Drop::Lowest(n) => Drop::Lowest(*n),
            Drop::Custom(v) => {
                let mut out: Vec<usize> = Vec::new();
                let mut i: usize = 0;
                while i < v.len()
                    invariant
                        i <= v.len(),
                        out@ == v@.take(i as int),
                    decreases v.len() - i,
                {
                    out.push(v[i]);
                    i = i + 1;
                    assert(out@ =~= v@.take(i as int));
                }
                assert(out@ =~= v@);
                Drop::Custom(out)
            },
        }
    }
}

/// The least or greatest value that a single die of a group may show.
/// A roll outside the bound is set to the bound, not rolled again.
#[derive(Debug, Clone, Copy, PartialEq, Eq)]
pub enum CutOff {
    Non,
    Minimum(i64),
    Maximum(i64),
    Both(MinMax),
}

impl CutOff {
    /// The least value that the range calculation attributes to one die of
    /// `size` sides under this clause.
    pub open spec fn face_min(self, size: i64) -> int {
        match self {
            CutOff::Non | CutOff::Maximum(_) => 1,
            CutOff::Minimum(n) => n as int,
            CutOff::Both(mm) => mm.lo(),
        }
    }

    /// The greatest value that the range calculation attributes to one die
    /// of `size` sides under this clause.
    pub open spec fn face_max(self, size: i64) -> int {
        match self {
            CutOff::Non | CutOff::Minimum(_) => size as int,
            CutOff::Maximum(n) => n as int,
            CutOff::Both(mm) => mm.hi(),
        }
    }

    /// What a rolled value becomes under this clause. With both bounds
    /// set, the upper bound is looked at first.
    pub open spec fn clamp(self, val: i64) -> i64 {
        match self {
            CutOff::Non => val,
            CutOff::Minimum(n) => if val < n {
                n
            } else {
                val
            },
            CutOff::Maximum(n) => if val > n {
                n
            } else {
                val
            },
            CutOff::Both(mm) => if val > mm.0[1] {
                mm.0[1]
            } else if val < mm.0[0] {
                mm.0[0]
            } else {
                val
            },
        }
    }

    /// Sets a rolled value to the bound that it oversteps, if any.
    pub fn use_to_cut_off(&self, val: &mut i64)
        ensures
            *final(val) == self.clamp(*old(val)),
    {
        match self {
            CutOff::Minimum(n) => {
                if *val < *n {
                    *val = *n;
                }
            },
            CutOff::Maximum(n) => {
                if *val > *n {
                    *val = *n;
                }
            },
            CutOff::Both(mm) => {
                let mn = mm.0[0];
                let mx = mm.0[1];
                if *val > mx {
                    *val = mx;
                } else if *val < mn {
                    *val = mn;
                }
            },
            CutOff::Non => {},
        }
    }
}

/// The numbers of a reroll clause.
#[derive(Debug, Clone, Copy, PartialEq, Eq, Structural)]
pub struct ReRollType {
    /// At most this many dice are rolled again.
    pub count: usize,
    /// A die qualifies when its value is strictly beyond this threshold.
    pub ex_threshold: i64,
}

/// When dice of a group are rolled a second time. A die is rolled again
/// once at most.
#[derive(Debug, Clone, Copy, PartialEq, Eq, Structural)]
pub enum ReRoll {
    Never,
    IfAbove(ReRollType),
    IfBelow(ReRollType),
}

impl ReRoll {
    /// The clause that never rolls again.
    pub fn new() -> (r: ReRoll)
        ensures
            r == ReRoll::Never,
    {
        ReRoll::default()
    }

    /// The clause that never rolls again.
    pub fn default() -> (r: ReRoll)
        ensures
            r == ReRoll::Never,
    {
        ReRoll::Never
    }

    /// Roll again up to `count` dice that show more than `ex_threshold`.
    pub fn if_above(ex_threshold: i64, count: usize) -> (r: ReRoll)
        ensures
            r == ReRoll::IfAbove(ReRollType { count, ex_threshold }),
    {
        let rrt = ReRollType { count, ex_threshold };
        ReRoll::IfAbove(rrt)
    }

    /// Roll again up to `count` dice that show less than `ex_threshold`.
    pub fn if_below(ex_threshold: i64, count: usize) -> (r: ReRoll)
        ensures
            r == ReRoll::IfBelow(ReRollType { count, ex_threshold }),
    {
        let rrt = ReRollType { count, ex_threshold };
        ReRoll::IfBelow(rrt)
    }
}

/// A set of dice of one size. This is not a single die.
#[derive(Debug, Clone, PartialEq, Eq)]
pub struct Dice {
    /// The number of sides.
    pub size: i64,
    /// The number of dice.
    pub count: usize,
    pub drop: Drop,
    pub reroll: ReRoll,
    pub cutoff: CutOff,
    pub op: DiceOp,
    /// Whether a die that shows its highest face grants one more roll.
    pub explosive: bool,
}

/// The mathematical value of a [`Dice`].
pub struct DiceView {
    pub size: i64,
    pub count: usize,
    pub drop: DropView,
    pub reroll: ReRoll,
    pub cutoff: CutOff,
    pub op: DiceOp,
    pub explosive: bool,
}

impl View for Dice {
    type V = DiceView;

    open spec fn view(&self) -> DiceView {
        DiceView {
            size: self.size,
            count: self.count,
            drop: self.drop@,
            reroll: self.reroll,
            cutoff: self.cutoff,
            op: self.op,
            explosive: self.explosive,
        }
    }
}

impl DiceView {
    /// `count` dice of `size` sides, added, with no clause.
    pub open spec fn plain(size: i64, count: usize) -> DiceView {
        DiceView {
            size,
            count,
            drop: DropView::Non,
            reroll: ReRoll::Never,
            cutoff: CutOff::Non,
            op: DiceOp::Add,
            explosive: false,
        }
    }

    /// The number of dice that are summed.
    pub open spec fn true_count(self) -> nat {
        self.drop.survivors(self.count as nat)
    }

    /// The least sum that the range calculation attributes to the group.
    pub open spec fn least(self) -> int {
        self.cutoff.face_min(self.size) * self.true_count()
    }

    /// The greatest sum that the range calculation attributes to the group.
    pub open spec fn greatest(self) -> int {
        self.cutoff.face_max(self.size) * self.true_count()
    }
}

/// The text of the error of a drop clause that asks for too much.
pub open spec fn drop_too_many_message() -> Seq<char> {
    "Trying to make a dicegroup which drops more dice than it has."@
}

/// The text of the error of a minimum above the number of sides.
pub open spec fn minimum_too_big_message() -> Seq<char> {
    "Minimum cutoff is bigger than dice sidedness!"@
}

/// The text of the error of a maximum below one.
pub open spec fn maximum_too_small_message() -> Seq<char> {
    "Maximum cutoff is less than one!"@
}

impl Dice {
    /// One six-sided die.
    pub fn new() -> (r: Dice)
        ensures
            r@ == DiceView::plain(6, 1),
    {
        Self::default()
    }

    /// One six-sided die.
    pub fn default() -> (r: Dice)
        ensures
            r@ == DiceView::plain(6, 1),
    {
        Dice {
            size: 6,
            count: 1,
            drop: Drop::Non,
            reroll: ReRoll::new(),
            cutoff: CutOff::Non,
            op: DiceOp::Add,
            explosive: false,
        }
    }

    /// `count` dice of `size` sides: `8d6` is `with_size_and_count(6, 8)`.
    pub fn with_size_and_count(size: i64, count: usize) -> (r: Dice)
        ensures
            r@ == DiceView::plain(size, count),
    {
        Dice {
            size,
            count,
            drop: Drop::Non,
            reroll: ReRoll::new(),
            cutoff: CutOff::Non,
            op: DiceOp::Add,
            explosive: false,
        }
    }

    /// Sets the number of sides.
    pub fn add_size(&mut self, n: i64)
        ensures
            final(self)@ == (DiceView { size: n, ..old(self)@ }),
    {
        self.size = n;
    }

    /// Sets the number of dice.
    pub fn add_count(&mut self, n: usize)
        ensures
            final(self)@ == (DiceView { count: n, ..old(self)@ }),
    {
        self.count = n;
    }

    /// Sets the drop clause.
    pub fn add_drop(&mut self, k: Drop)
        ensures
            final(self)@ == (DiceView { drop: k@, ..old(self)@ }),
    {
        self.drop = k;
    }

    /// Rolls up to `count` dice again, once each, if they show more than
    /// `threshold`. A `count` above the number of dice is no error.
    pub fn add_reroll_if_above(&mut self, threshold: i64, count: usize)
        ensures
            final(self)@ == (DiceView {
                reroll: ReRoll::IfAbove(ReRollType { count, ex_threshold: threshold }),
                ..old(self)@
            }),
    {
        self.reroll = ReRoll::if_above(threshold, count);
    }

    /// Rolls up to `count` dice again, once each, if they show less than
    /// `threshold`. A `count` above the number of dice is no error.
    pub fn add_reroll_if_below(&mut self, threshold: i64, count: usize)
        ensures
            final(self)@ == (DiceView {
                reroll: ReRoll::IfBelow(ReRollType { count, ex_threshold: threshold }),
                ..old(self)@
            }),
    {
        self.reroll = ReRoll::if_below(threshold, count);
    }

    /// Sets a cutoff clause that the caller has checked.
    pub fn add_checked_cutoff(&mut self, cutoff: CutOff)
        ensures
            final(self)@ == (DiceView { cutoff, ..old(self)@ }),
    {
        self.cutoff = cutoff;
    }

    /// Sets the least value of a die: a roll below `min` counts as `min`.
    /// Refused when `min` is above the number of sides.
    pub fn with_minimum_roll(&mut self, min: i64) -> (r: Result<(), String>)
        ensures
            r is Err <==> min > old(self).size,
            r matches Err(e) ==> e@ == minimum_too_big_message() && final(self)@ == old(self)@,
            r is Ok ==> final(self)@ == (DiceView { cutoff: CutOff::Minimum(min), ..old(self)@ }),
    {
        if min > self.size {
            return Err("Minimum cutoff is bigger than dice sidedness!".to_owned());
        }
        self.cutoff = CutOff::Minimum(min);
        Ok(())
    }

    /// Sets the greatest value of a die: a roll above `max` counts as `max`.
    /// Refused when `max` is below one.
    pub fn with_maximum_roll(&mut self, max: i64) -> (r: Result<(), String>)
        ensures
            r is Err <==> max < 1,
            r matches Err(e) ==> e@ == maximum_too_small_message() && final(self)@ == old(self)@,
            r is Ok ==> final(self)@ == (DiceView { cutoff: CutOff::Maximum(max), ..old(self)@ }),
    {
        if max < 1 {
            return Err("Maximum cutoff is less than one!".to_owned());
        }
        self.cutoff = CutOff::Maximum(max);
        Ok(())
    }

    /// Sets the least and the greatest value of a die. Refused when `max` is
    /// below one, and else when `min` is above the number of sides.
    pub fn with_min_and_max_roll(&mut self, min: i64, max: i64) -> (r: Result<(), String>)
        ensures
            r is Err <==> max < 1 || min > old(self).size,
            r matches Err(e) ==> final(self)@ == old(self)@ && e@ == (if max < 1 {
                maximum_too_small_message()
            } else {
                minimum_too_big_message()
            }),
            r is Ok ==> final(self)@ == (DiceView {
                cutoff: CutOff::Both(MinMax([min, max])),
                ..old(self)@
            }),
    {
        if max < 1 {
            return Err("Maximum cutoff is less than one!".to_owned());
        } else if min > self.size {
            return Err("Minimum cutoff is bigger than dice sidedness!".to_owned());
        }
        self.cutoff = CutOff::Both(MinMax([min, max]));
        Ok(())
    }

    /// Sets the operator.
    pub fn add_op(&mut self, op: DiceOp)
        ensures
            final(self)@ == (DiceView { op, ..old(self)@ }),
    {
        self.op = op;
    }

    /// Makes the group one that is added, which a new group already is.
    pub fn to_plus_dice(&mut self)
        ensures
            final(self)@ == (DiceView { op: DiceOp::Add, ..old(self)@ }),
    {
        self.op = DiceOp::Add;
    }

    /// Makes the group one that is subtracted.
    pub fn to_minus_dice(&mut self)
        ensures
            final(self)@ == (DiceView { op: DiceOp::Sub, ..old(self)@ }),
    {
        self.op = DiceOp::Sub;
    }

    /// Discards the `n` lowest dice. Refused when the group has fewer than
    /// `n` dice.
    pub fn with_drop_lowest(&mut self, n: usize) -> (r: Result<(), String>)
        ensures
            r is Err <==> old(self).count < n,
            r matches Err(e) ==> e@ == drop_too_many_message() && final(self)@ == old(self)@,
            r is Ok ==> final(self)@ == (DiceView { drop: DropView::Lowest(n), ..old(self)@ }),
    {
        if self.count < n {
            return Err(
                "Trying to make a dicegroup which drops more dice than it has.".to_owned(),
            );
        }
        self.drop = Drop::Lowest(n);
        Ok(())
    }

    /// Discards the `n` highest dice. Refused when the group has fewer than
    /// `n` dice.
    pub fn with_drop_highest(&mut self, n: usize) -> (r: Result<(), String>)
        ensures
            r is Err <==> old(self).count < n,
            r matches Err(e) ==> e@ == drop_too_many_message() && final(self)@ == old(self)@,
            r is Ok ==> final(self)@ == (DiceView { drop: DropView::Highest(n), ..old(self)@ }),
    {
        if self.count < n {
            return Err(
                "Trying to make a dicegroup which drops more dice than it has.".to_owned(),
            );
        }
        self.drop = Drop::Highest(n);
        Ok(())
    }

    /// Discards the `n_l` lowest and the `n_h` highest dice. Refused when the
    /// group has fewer than `n_l + n_h` dice.
    pub fn with_drop_highest_and_lowest(&mut self, n_l: usize, n_h: usize) -> (r: Result<
        (),
        String,
    >)
        ensures
            r is Err <==> old(self).count < n_l + n_h,
            r matches Err(e) ==> e@ == drop_too_many_message() && final(self)@ == old(self)@,
            r is Ok ==> final(self)@ == (DiceView {
                drop: DropView::Custom(index_run(n_l, (old(self).count - n_h) as usize)),
                ..old(self)@
            }),
    {
        if self.count < n_h || self.count - n_h < n_l {
            return Err(
                "Trying to make a dicegroup which drops more dice than it has.".to_owned(),
            );
        }
        let keep_vector = index_range(n_l, self.count - n_h);
        self.drop = Drop::Custom(keep_vector);
        Ok(())
    }

    /// The number of dice that are summed.
    pub fn get_true_count(&self) -> (r: usize)
        ensures
            r == self@.true_count(),
    {
        match &self.drop {
            Drop::Lowest(n) | Drop::Highest(n) => if *n <= self.count {
                self.count - *n
            } else {
                0
            },
            Drop::Custom(v) => v.len(),
            Drop::Non => self.count,
        }
    }

    /// A copy of the group.
    pub fn duplicate(&self) -> (r: Dice)
        ensures
            r@ == self@,
    {
        Dice {
            size: self.size,
            count: self.count,
            drop: self.drop.duplicate(),
            reroll: self.reroll,
            cutoff: self.cutoff,
            op: self.op,
            explosive: self.explosive,
        }
    }
}

/// A flat amount that is added to the total or subtracted from it.
#[derive(Debug, Clone, Copy, PartialEq, Eq)]
pub struct Bonus {
    pub bonus: i64,
    pub op: DiceOp,
}

impl Bonus {
    /// The bonus `+0`.
    pub fn new() -> (r: Bonus)
        ensures
            r == (Bonus { bonus: 0, op: DiceOp::Add }),
    {
        Self::default()
    }

    /// The bonus `+n`.
    pub fn of(n: i64) -> (r: Bonus)
        ensures
            r == (Bonus { bonus: n, op: DiceOp::Add }),
    {
        Bonus { bonus: n, op: DiceOp::Add }
    }

    /// The bonus `+n`.
    pub fn plus(n: u32) -> (r: Bonus)
        ensures
            r == (Bonus { bonus: n as i64, op: DiceOp::Add }),
    {
        Bonus { bonus: n as i64, op: DiceOp::Add }
    }

    /// The bonus `-n`.
    pub fn minus(n: u32) -> (r: Bonus)
        ensures
            r == (Bonus { bonus: n as i64, op: DiceOp::Sub }),
    {
        Bonus { bonus: n as i64, op: DiceOp::Sub }
    }

    /// The bonus `+0`.
    pub fn default() -> (r: Bonus)
        ensures
            r == (Bonus { bonus: 0, op: DiceOp::Add }),
    {
        Bonus { bonus: 0, op: DiceOp::Add }
    }

    /// Sets the operator.
    pub fn add_op(&mut self, op: DiceOp)
        ensures
            *final(self) == (Bonus { op, ..*old(self) }),
    {
        self.op = op;
    }
}

/// What a bag is made of: a flat bonus or a set of dice of one size.
#[derive(Debug, Clone, PartialEq, Eq)]
pub enum DiceGroup {
    Bonus(Bonus),
    Dice(Dice),
}

/// The mathematical value of a [`DiceGroup`].
pub enum DiceGroupView {
    Bonus(Bonus),
    Dice(DiceView),
}

impl View for DiceGroup {
    type V = DiceGroupView;

    open spec fn view(&self) -> DiceGroupView {
        match *self {
            DiceGroup::Bonus(b) => DiceGroupView::Bonus(b),
            DiceGroup::Dice(d) => DiceGroupView::Dice(d@),
        }
    }
}

impl DiceGroupView {
    /// The group with its operator replaced.
    pub open spec fn with_op(self, op: DiceOp) -> DiceGroupView {
        match self {
            DiceGroupView::Bonus(b) => DiceGroupView::Bonus(Bonus { op, ..b }),
            DiceGroupView::Dice(d) => DiceGroupView::Dice(DiceView { op, ..d }),
        }
    }

    /// The group with its explosive mark replaced. A bonus has none.
    pub open spec fn with_explosive(self, x: bool) -> DiceGroupView {
        match self {
            DiceGroupView::Bonus(b) => self,
            DiceGroupView::Dice(d) => DiceGroupView::Dice(DiceView { explosive: x, ..d }),
        }
    }

    /// The operator of the group.
    pub open spec fn op(self) -> DiceOp {
        match self {
            DiceGroupView::Bonus(b) => b.op,
            DiceGroupView::Dice(d) => d.op,
        }
    }

    /// The least amount that the range calculation attributes to the group,
    /// before its operator is applied.
    pub open spec fn least(self) -> int {
        match self {
            DiceGroupView::Bonus(b) => b.bonus as int,
            DiceGroupView::Dice(d) => d.least(),
        }
    }

    /// The greatest amount that the range calculation attributes to the
    /// group, before its operator is applied.
    pub open spec fn greatest(self) -> int {
        match self {
            DiceGroupView::Bonus(b) => b.bonus as int,
            DiceGroupView::Dice(d) => d.greatest(),
        }
    }

    /// The range of a bag once this group has been put after groups of range
    /// `acc`: the operator is applied to the lower ends and to the upper
    /// ends, and the two results are put in order.
    pub open spec fn fold_range(self, acc: (int, int)) -> (int, int) {
        let lo = self.op().apply(acc.0, self.least());
        let hi = self.op().apply(acc.1, self.greatest());
        if lo > hi {
            (hi, lo)
        } else {
            (lo, hi)
        }
    }

    /// The range of the group taken alone, without cutoff and operator:
    /// `[b, b]` for a bonus `b`; for dice, `[0, 0]` when the drop clause
    /// names as many dice as there are or more, else the ordered pair of
    /// `f` and `size * f`, `f` being the count less the number of the drop
    /// clause.
    pub open spec fn own_minmax(self) -> (int, int) {
        match self {
            DiceGroupView::Bonus(b) => (b.bonus as int, b.bonus as int),
            DiceGroupView::Dice(d) => {
                let named: int = match d.drop {
                    DropView::Highest(n) | DropView::Lowest(n) => n as int,
                    DropView::Custom(keep) => keep.len() as int,
                    DropView::Non => 0,
                };
                if named >= d.count {
                    (0, 0)
                } else {
                    let f = d.count - named;
                    if f > d.size * f {
                        (d.size * f, f)
                    } else {
                        (f, d.size * f)
                    }
                }
            },
        }
    }
}

impl vstd::std_specs::convert::FromSpecImpl<Dice> for DiceGroup {
    open spec fn obeys_from_spec() -> bool {
        true
    }

    open spec fn from_spec(d: Dice) -> DiceGroup {
        DiceGroup::Dice(d)
    }
}

impl From<Dice> for DiceGroup {
    fn from(d: Dice) -> (r: DiceGroup) {
        DiceGroup::Dice(d)
    }
}

impl vstd::std_specs::convert::FromSpecImpl<Bonus> for DiceGroup {
    open spec fn obeys_from_spec() -> bool {
        true
    }

    open spec fn from_spec(b: Bonus) -> DiceGroup {
        DiceGroup::Bonus(b)
    }
}

impl From<Bonus> for DiceGroup {
    fn from(b: Bonus) -> (r: DiceGroup) {
        DiceGroup::Bonus(b)
    }
}

/// The product of a face value and a number of dice never leaves `i128`,
/// and neither does its sum with, or difference from, an `i64`.
pub proof fn lemma_face_times_count(face: int, n: int)
    requires
        fits_i64(face),
        0 <= n <= u64::MAX,
    ensures
        -0x7fff_ffff_ffff_ffff_8000_0000_0000_0000 <= face * n
            <= 0x7fff_ffff_ffff_ffff_8000_0000_0000_0000,
{
    assert(face * n <= 0x8000_0000_0000_0000 * n) by (nonlinear_arith)
        requires
            face <= 0x8000_0000_0000_0000,
            0 <= n,
    ;
    assert(-0x8000_0000_0000_0000 * n <= face * n) by (nonlinear_arith)
        requires
            -0x8000_0000_0000_0000 <= face,
            0 <= n,
    ;
}

impl DiceGroup {
    /// One six-sided die.
    pub fn new() -> (r: DiceGroup)
        ensures
            r@ == DiceGroupView::Dice(DiceView::plain(6, 1)),
    {
        Self::default()
    }

    /// One six-sided die.
    pub fn default() -> (r: DiceGroup)
        ensures
            r@ == DiceGroupView::Dice(DiceView::plain(6, 1)),
    {
        let d = Dice::with_size_and_count(6, 1);
        DiceGroup::Dice(d)
    }

    /// `count` dice of `size` sides.
    pub fn dice(size: i64, count: usize) -> (r: DiceGroup)
        ensures
            r@ == DiceGroupView::Dice(DiceView::plain(size, count)),
    {
        let d = Dice::with_size_and_count(size, count);
        DiceGroup::Dice(d)
    }

    /// The bonus `+n`.
    pub fn bonus(n: i64) -> (r: DiceGroup)
        ensures
            r@ == DiceGroupView::Bonus(Bonus { bonus: n, op: DiceOp::Add }),
    {
        let b = Bonus::of(n);
        DiceGroup::Bonus(b)
    }

    /// Sets the operator of the group.
    pub fn add_op(&mut self, op: DiceOp)
        ensures
            final(self)@ == old(self)@.with_op(op),
    {
        match self {
            DiceGroup::Dice(d) => d.add_op(op),
            DiceGroup::Bonus(b) => b.add_op(op),
        }
    }

    /// Sets whether the dice explode. A bonus is left as it is.
    pub fn is_explosive(&mut self, x: bool)
        ensures
            final(self)@ == old(self)@.with_explosive(x),
    {
        match self {
            DiceGroup::Dice(d) => {
                d.explosive = x;
            },
            DiceGroup::Bonus(_) => {},
        }
    }

    /// A copy of the group.
    pub fn duplicate(&self) -> (r: DiceGroup)
        ensures
            r@ == self@,
    {
        match self {
            DiceGroup::Dice(d) => DiceGroup::Dice(d.duplicate()),
            DiceGroup::Bonus(b) => DiceGroup::Bonus(*b),
        }
    }

    /// The range of the group taken alone, without cutoff and operator.
    pub fn calculate_minmax(&self) -> (r: MinMax)
        requires
            fits_i64(self@.own_minmax().0),
            fits_i64(self@.own_minmax().1),
        ensures
            r.ends() == self@.own_minmax(),
    {
        match self {
            DiceGroup::Bonus(n) => MinMax([n.bonus, n.bonus]),
            DiceGroup::Dice(d) => {
                let named: usize = match &d.drop {
                    Drop::Highest(n) | Drop::Lowest(n) => *n,
                    Drop::Custom(v) => v.len(),
                    Drop::Non => 0,
                };
                if named >= d.count {
                    return MinMax([0, 0]);
                }
                let f: i128 = (d.count - named) as i128;
                proof {
                    lemma_face_times_count(d.size as int, f as int);
                }
                let min_0: i128 = f;
                let max_0: i128 = (d.size as i128) * f;
                if min_0 > max_0 {
                    MinMax([max_0 as i64, min_0 as i64])
                } else {
                    MinMax([min_0 as i64, max_0 as i64])
                }
            },
        }
    }

    /// The least and the greatest amount that the range calculation
    /// attributes to the group.
    fn spread(&self) -> (r: (i128, i128))
        ensures
            r.0 == self@.least(),
            r.1 == self@.greatest(),
            -0x7fff_ffff_ffff_ffff_8000_0000_0000_0000 <= r.0
                <= 0x7fff_ffff_ffff_ffff_8000_0000_0000_0000,
            -0x7fff_ffff_ffff_ffff_8000_0000_0000_0000 <= r.1
                <= 0x7fff_ffff_ffff_ffff_8000_0000_0000_0000,
    {
        match self {
            DiceGroup::Bonus(n) => (n.bonus as i128, n.bonus as i128),
            DiceGroup::Dice(d) => {
                let true_count = d.get_true_count();
                let (s_min, s_max): (i64, i64) = match d.cutoff {
                    CutOff::Non => (1, d.size),
                    CutOff::Maximum(n) => (1, n),
                    CutOff::Minimum(n) => (n, d.size),
                    CutOff::Both(mm) => (mm.0[0], mm.0[1]),
                };
                proof {
                    lemma_face_times_count(s_min as int, true_count as int);
                    lemma_face_times_count(s_max as int, true_count as int);
                }
                ((s_min as i128) * (true_count as i128), (s_max as i128) * (true_count as i128))
            },
        }
    }

    /// The operator of the group.
    fn operator(&self) -> (r: DiceOp)
        ensures
            r == self@.op(),
    {
        match self {
            DiceGroup::Bonus(b) => b.op,
            DiceGroup::Dice(d) => d.op,
        }
    }

    /// The range `acc` with this group folded in, or `None` when an end of
    /// the new range does not fit in `i64`.
    pub fn folded_range(&self, acc: [i64; 2]) -> (r: Option<[i64; 2]>)
        ensures
            match r {
                Some(a) => (a[0] as int, a[1] as int) == self@.fold_range(
                    (acc[0] as int, acc[1] as int),
                ),
                None => {
                    let f = self@.fold_range((acc[0] as int, acc[1] as int));
                    !fits_i64(f.0) || !fits_i64(f.1)
                },
            },
    {
        let (least, greatest) = self.spread();
        let (min_0, max_0): (i128, i128) = match self.operator() {
            DiceOp::Add => (acc[0] as i128 + least, acc[1] as i128 + greatest),
            DiceOp::Sub => (acc[0] as i128 - least, acc[1] as i128 - greatest),
        };
        let (lo, hi): (i128, i128) = if min_0 > max_0 {
            (max_0, min_0)
        } else {
            (min_0, max_0)
        };
        if lo < i64::MIN as i128 || hi > i64::MAX as i128 {
            None
        } else {
            Some([lo as i64, hi as i64])
        }
    }

    /// Folds this group into the range `min_max` of the groups before it.
    pub fn add_to_range(&self, min_max: &mut [i64; 2])
        requires
            fits_i64(self@.fold_range((old(min_max)[0] as int, old(min_max)[1] as int)).0),
            fits_i64(self@.fold_range((old(min_max)[0] as int, old(min_max)[1] as int)).1),
        ensures
            (final(min_max)[0] as int, final(min_max)[1] as int) == self@.fold_range(
                (old(min_max)[0] as int, old(min_max)[1] as int),
            ),
    {
        match self.folded_range(*min_max) {
            Some(next) => {
                *min_max = next;
            },
            None => {},
        }
    }
}

/// The mathematical values of a sequence of groups.
pub open spec fn views_of(groups: Seq<DiceGroup>) -> Seq<DiceGroupView> {
    Seq::new(groups.len(), |i: int| groups[i]@)
}

/// The range of a sequence of groups: `[0, 0]` for none, and each further
/// group folds in by [`DiceGroupView::fold_range`].
pub open spec fn range_of(groups: Seq<DiceGroupView>) -> (int, int)
    decreases groups.len(),
{
    if groups.len() == 0 {
        (0, 0)
    } else {
        groups.last().fold_range(range_of(groups.drop_last()))
    }
}

/// The lower end of a range is never above its upper end.
pub proof fn lemma_range_in_order(groups: Seq<DiceGroupView>)
    ensures
        range_of(groups).0 <= range_of(groups).1,
    decreases groups.len(),
{
    if groups.len() > 0 {
        lemma_range_in_order(groups.drop_last());
    }
}

/// Whether the range of every leading part of the sequence fits in `i64`.
pub open spec fn range_fits(groups: Seq<DiceGroupView>) -> bool {
    forall|k: int|
        0 <= k <= groups.len() ==> fits_i64((#[trigger] range_of(groups.take(k))).0) && fits_i64(
            range_of(groups.take(k)).1,
        )
}


/// A leading part of a sequence of groups that is extended by one.
pub proof fn lemma_range_step(groups: Seq<DiceGroupView>, k: int)
    requires
        0 <= k < groups.len(),
    ensures
        range_of(groups.take(k + 1)) == groups[k].fold_range(range_of(groups.take(k))),
{
    assert(groups.take(k + 1).drop_last() =~= groups.take(k));
}

/// The range of the groups, or `None` when the range of a leading part of
/// them does not fit in `i64`.
pub fn checked_range(dice: &Vec<DiceGroup>) -> (r: Option<[i64; 2]>)
    ensures
        r is Some <==> range_fits(views_of(dice@)),
        r matches Some(a) ==> (a[0] as int, a[1] as int) == range_of(views_of(dice@)),
{
    let ghost groups = views_of(dice@);
    let mut acc: [i64; 2] = [0, 0];
    let mut i: usize = 0;
    assert(groups.take(0) =~= Seq::<DiceGroupView>::empty());
    while i < dice.len()
        invariant
            i <= dice.len(),
            groups == views_of(dice@),
            (acc[0] as int, acc[1] as int) == range_of(groups.take(i as int)),
            forall|k: int|
                0 <= k <= i ==> fits_i64((#[trigger] range_of(groups.take(k))).0) && fits_i64(
                    range_of(groups.take(k)).1,
                ),
        decreases dice.len() - i,
    {
        proof {
            lemma_range_step(groups, i as int);
        }
        match dice[i].folded_range(acc) {
            Some(next) => {
                acc = next;
            },
            None => {
                return None;
            },
        }
        i = i + 1;
    }
    assert(groups.take(groups.len() as int) =~= groups);
    Some(acc)
}

/// An ordered collection of groups with its range.
#[derive(Debug, Clone, PartialEq, Eq)]
pub struct DiceBag {
    pub dice: Vec<DiceGroup>,
    /// The range of `dice`; see [`DiceBag::wf`].
    pub range: MinMax,
}

impl DiceBag {
    /// The mathematical values of the groups of the bag.
    pub open spec fn groups(&self) -> Seq<DiceGroupView> {
        views_of(self.dice@)
    }

    /// The invariant of a bag: `range` is the range of `dice`.
    pub open spec fn wf(&self) -> bool {
        self.range.ends() == range_of(self.groups())
    }

    /// The range of a well-formed bag has its ends in order.
    pub proof fn lemma_ends_in_order(&self)
        requires
            self.wf(),
        ensures
            self.range.lo() <= self.range.hi(),
    {
        lemma_range_in_order(self.groups());
    }

    /// The bag of the given groups, or `None` when the range of a leading
    /// part of them does not fit in `i64`.
    pub fn try_from_dice(dice: Vec<DiceGroup>) -> (r: Option<DiceBag>)
        ensures
            r is Some <==> range_fits(views_of(dice@)),
            r matches Some(bag) ==> bag.dice == dice && bag.wf(),
    {
        match checked_range(&dice) {
            Some(range) => Some(DiceBag { dice, range: MinMax(range) }),
            None => None,
        }
    }

    /// The bag of the given groups.
    pub fn from_dice(dice: Vec<DiceGroup>) -> (bag: DiceBag)
        requires
            range_fits(views_of(dice@)),
        ensures
            bag.dice == dice,
            bag.wf(),
    {
        let mut dist = DiceBag { dice, range: MinMax([0, 0]) };
        dist.calculate_range();
        dist
    }

    /// Computes the range of the groups anew and stores it.
    pub fn calculate_range(&mut self)
        requires
            range_fits(old(self).groups()),
        ensures
            final(self).dice == old(self).dice,
            final(self).wf(),
    {
        match checked_range(&self.dice) {
            Some(range) => {
                self.range = MinMax(range);
            },
            None => {},
        }
    }

    /// The range as `[min, max]`.
    pub fn get_range(&self) -> (r: [i64; 2])
        ensures
            r == self.range.0,
    {
        self.range.0
    }

    /// The totals from the minimum of the range up to its maximum, the
    /// maximum itself left out.
    pub fn get_range_as_list(&self) -> (r: Vec<i64>)
        ensures
            r@ == Seq::new(
                if self.range.lo() <= self.range.hi() {
                    (self.range.hi() - self.range.lo()) as nat
                } else {
                    0
                },
                |i: int| (self.range.lo() + i) as i64,
            ),
    {
        let min = self.range.0[0];
        let max = self.range.0[1];
        let mut out: Vec<i64> = Vec::new();
        let mut k: i64 = min;
        while k < max
            invariant
                min == self.range.lo(),
                max == self.range.hi(),
                min <= k,
                k <= max || k == min,
                out@ == Seq::new((k - min) as nat, |i: int| (min + i) as i64),
            decreases max - k,
        {
            out.push(k);
            k = k + 1;
            assert(out@ =~= Seq::new((k - min) as nat, |i: int| (min + i) as i64));
        }
        assert(out@ =~= Seq::new(
            if min <= max {
                (max - min) as nat
            } else {
                0
            },
            |i: int| (min + i) as i64,
        ));
        out
    }

    /// A count of zero for every total of the range, both ends included.
    pub fn get_range_as_btreemap(&self) -> (r: BTreeMap<i64, usize>)
        ensures
            r@ == Map::new(|k: i64| self.range.lo() <= k <= self.range.hi(), |k: i64| 0usize),
    {
        broadcast use vstd::laws_cmp::group_laws_cmp;

        let min = self.range.0[0];
        let max = self.range.0[1];
        let mut out: BTreeMap<i64, usize> = BTreeMap::new();
        if min > max {
            assert(out@ =~= Map::new(|k: i64| min <= k <= max, |k: i64| 0usize));
            return out;
        }
        out.insert(max, 0);
        let mut k: i64 = min;
        while k < max
            invariant
                min <= k <= max,
                vstd::laws_cmp::obeys_cmp::<i64>(),
                out@ =~= Map::new(|j: i64| min <= j < k || j == max, |j: i64| 0usize),
            decreases max - k,
        {
            out.insert(k, 0);
            k = k + 1;
        }
        assert(out@ =~= Map::new(|j: i64| min <= j <= max, |j: i64| 0usize));
        out
    }
}

} // verus!
