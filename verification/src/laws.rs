//! What holds of every expression and of every bag, stated over the
//! functions that say what parsing, the range and a roll are.

use crate::distribution::{
    fits_i64, index_run, range_fits, range_of, CutOff, DiceGroupView, DiceOp, DiceView, DropView,
    ReRoll,
};
use crate::error::ParseErrorView;
use crate::grammar::{
    count_of, dice_text, lemma_base_of, lemma_codes_differ, lemma_decode_two,
    lemma_dice_text_allowed, lemma_dice_with_modifiers, lemma_no_modifiers, lemma_one_group,
    lemma_two_allowed, lemma_two_letters, modifier_text, token, tokens_formed,
};
use crate::modifiers::{
    cutoff_scan, decode, decode_all, drop_scan, drop_step, reroll_scan, resolve, tokens_from,
    CutOffState, DropState, ModifierGroup, ReRollState, TokenView,
};
use crate::parse::{bag_of, base_of, d_numeric_at, group_of, groups_from, holds_d_numeric, sign_of};
use crate::roll::{
    admitted, all_within, bonus_total_of, dice_in, drop_applies, lemma_sum_bounds, positions_below,
    reports_admitted, sum_of, totals_sum, DiceResult, RollResults,
};
use crate::text::{
    all_of, decimal, digit, digits_value, lemma_decimal, lemma_run_end, lemma_run_end_is, run_end,
    CharClass,
};
use vstd::prelude::*;

verus! {

/// A count, a `d` and a size, and nothing else, are a group of plain
/// dice: `{count}d{size}`, and `d{size}` for one die.
pub proof fn lemma_plain_dice(count: Seq<char>, size: Seq<char>)
    requires
        all_of(count, CharClass::Digit),
        all_of(size, CharClass::Digit),
        size.len() > 0,
        digits_value(count) <= usize::MAX,
        digits_value(size) <= i64::MAX,
    ensures
        group_of(dice_text(count, size, Seq::empty())) == Ok::<DiceGroupView, ParseErrorView>(
            DiceGroupView::Dice(
                DiceView::plain(digits_value(size) as i64, count_of(count) as usize),
            ),
        ),
{
    let t = dice_text(count, size, Seq::empty());
    let a = count.len() as int;
    lemma_base_of(count, size, Seq::empty());
    assert(t[a] == 'd');
    assert(!all_of(t, CharClass::Digit));
    assert(t[a + 1] == size[0]);
    assert(d_numeric_at(t, a));
    assert(t.last() == size.last());
    assert forall|i: int| 0 <= i < t.len() implies t[i] != '!' by {
        if i < a {
            assert(t[i] == count[i]);
        } else if i > a {
            assert(t[i] == size[i - a - 1]);
        }
    }
    let die = DiceView::plain(digits_value(size) as i64, count_of(count) as usize);
    lemma_no_modifiers(t, die);
}

/// The range of plain dice: for every expression `{count}d{size}` whose
/// dice have a side at least, the bag holds that one group and its range
/// goes from `count` to `count * size`.
pub proof fn lemma_plain_dice_range(count: Seq<char>, size: Seq<char>)
    requires
        all_of(count, CharClass::Digit),
        all_of(size, CharClass::Digit),
        size.len() > 0,
        digits_value(count) <= usize::MAX,
        1 <= digits_value(size) <= i64::MAX,
        count_of(count) * digits_value(size) <= i64::MAX,
    ensures
        bag_of(dice_text(count, size, Seq::empty())) == Ok::<Seq<DiceGroupView>, ParseErrorView>(
            seq![
                DiceGroupView::Dice(
                    DiceView::plain(digits_value(size) as i64, count_of(count) as usize),
                ),
            ],
        ),
        range_of(
            seq![
                DiceGroupView::Dice(
                    DiceView::plain(digits_value(size) as i64, count_of(count) as usize),
                ),
            ],
        ) == (count_of(count) as int, (count_of(count) * digits_value(size)) as int),
{
    let t = dice_text(count, size, Seq::empty());
    let a = count.len() as int;
    let n = count_of(count) as int;
    let sides = digits_value(size) as int;
    assert(n <= n * sides) by (nonlinear_arith)
        requires
            sides >= 1,
            n >= 0,
    ;
    lemma_plain_dice(count, size);
    let die = DiceView::plain(sides as i64, n as usize);
    let g = DiceGroupView::Dice(die);
    let groups = seq![g];
    assert forall|i: int| 0 <= i < t.len() implies CharClass::Allowed.holds(#[trigger] t[i])
        && CharClass::Operand.holds(t[i]) by {
        if i < a {
            assert(t[i] == count[i]);
        } else if i > a {
            assert(t[i] == size[i - a - 1]);
        } else {
            assert(t[i] == 'd');
        }
    }
    lemma_run_end_is(t, 0, CharClass::Allowed, t.len() as int);
    lemma_run_end_is(t, 0, CharClass::Operand, t.len() as int);
    assert(t.subrange(0, t.len() as int) =~= t);
    assert(g.with_op(DiceOp::Add) == g);
    assert(groups_from(t, 0, DiceOp::Add) == Ok::<Seq<DiceGroupView>, ParseErrorView>(groups));
    assert(groups.drop_last() =~= Seq::<DiceGroupView>::empty());
    assert(range_of(groups.drop_last()) == (0int, 0int));
    assert(die.true_count() == n);
    assert(1 * n == n) by (nonlinear_arith);
    assert(sides * n == n * sides) by (nonlinear_arith);
    assert(range_of(groups) == (n, n * sides));
    assert(range_fits(groups)) by {
        assert forall|k: int| 0 <= k <= groups.len() implies fits_i64(
            (#[trigger] range_of(groups.take(k))).0,
        ) && fits_i64(range_of(groups.take(k)).1) by {
            if k == 0 {
                assert(groups.take(0) =~= Seq::<DiceGroupView>::empty());
            } else {
                assert(groups.take(1) =~= groups);
            }
        }
    }
}

/// The expression `{count}d{size}`, with both numbers written in base
/// ten, is a bag of that many plain dice of that size, and its range goes
/// from `count` to `count * size`. This holds for every count and for
/// every size of one at least, as long as `count * size` fits in `i64`.
pub proof fn lemma_written_dice_range(count: usize, size: i64)
    requires
        1 <= size,
        count * size <= i64::MAX,
    ensures
        bag_of(dice_text(decimal(count as nat), decimal(size as nat), Seq::empty())) == Ok::<
            Seq<DiceGroupView>,
            ParseErrorView,
        >(seq![DiceGroupView::Dice(DiceView::plain(size, count))]),
        range_of(seq![DiceGroupView::Dice(DiceView::plain(size, count))]) == (
            count as int,
            count * size,
        ),
{
    lemma_decimal(count as nat);
    lemma_decimal(size as nat);
    lemma_plain_dice_range(decimal(count as nat), decimal(size as nat));
}

/// The two codes for each end of the rolls say the same: in a group of
/// `count` dice, dropping the `a` lowest and the `b` highest is keeping
/// the `count - a` highest and the `count - b` lowest, as long as
/// something is dropped.
pub proof fn lemma_drop_is_keep(die: DiceView, a: usize, b: usize)
    requires
        1 <= a <= die.count,
        1 <= b <= die.count,
    ensures
        resolve(seq![ModifierGroup::DropLowest(a), ModifierGroup::DropHighest(b)], die) == resolve(
            seq![
                ModifierGroup::KeepHighest((die.count - a) as usize),
                ModifierGroup::KeepLowest((die.count - b) as usize),
            ],
            die,
        ),
{
    let drops = seq![ModifierGroup::DropLowest(a), ModifierGroup::DropHighest(b)];
    let keeps = seq![
        ModifierGroup::KeepHighest((die.count - a) as usize),
        ModifierGroup::KeepLowest((die.count - b) as usize),
    ];
    let none = Seq::<ModifierGroup>::empty();
    assert(drops.drop_last() =~= seq![ModifierGroup::DropLowest(a)]);
    assert(drops.drop_last().drop_last() =~= none);
    assert(keeps.drop_last() =~= seq![ModifierGroup::KeepHighest((die.count - a) as usize)]);
    assert(keeps.drop_last().drop_last() =~= none);
    let start = DropState { lowest: None, highest: None };
    assert(drop_scan(none, die.count) == Ok::<DropState, ParseErrorView>(start));
    assert(drop_scan(drops.drop_last(), die.count) == drop_step(start, drops[0], die.count));
    assert(drop_scan(keeps.drop_last(), die.count) == drop_step(start, keeps[0], die.count));
    assert(drop_scan(drops, die.count) == drop_scan(keeps, die.count));
    let idle = ReRollState { count: None, threshold: None };
    assert(reroll_scan(none, die.size) == Ok::<ReRollState, ParseErrorView>(idle));
    assert(reroll_scan(drops.drop_last(), die.size) == Ok::<ReRollState, ParseErrorView>(idle));
    assert(reroll_scan(keeps.drop_last(), die.size) == Ok::<ReRollState, ParseErrorView>(idle));
    assert(reroll_scan(drops, die.size) == reroll_scan(keeps, die.size));
    let open = CutOffState { minimum: None, maximum: None };
    assert(cutoff_scan(none, die.size) == Ok::<CutOffState, ParseErrorView>(open));
    assert(cutoff_scan(drops.drop_last(), die.size) == Ok::<CutOffState, ParseErrorView>(open));
    assert(cutoff_scan(keeps.drop_last(), die.size) == Ok::<CutOffState, ParseErrorView>(open));
    assert(cutoff_scan(drops, die.size) == cutoff_scan(keeps, die.size));
}

/// The expressions `{n}d{s}dl{a}dh{b}` and `{n}d{s}kh{n-a}kl{n-b}` stand
/// for the same group, or are refused for the same reason, whenever `a`
/// and `b` are one at least and `n` at most.
pub proof fn lemma_drop_keep_equivalence(
    count: Seq<char>,
    size: Seq<char>,
    a: Seq<char>,
    b: Seq<char>,
    keep_a: Seq<char>,
    keep_b: Seq<char>,
)
    requires
        all_of(count, CharClass::Digit),
        all_of(size, CharClass::Digit),
        all_of(a, CharClass::Digit),
        all_of(b, CharClass::Digit),
        all_of(keep_a, CharClass::Digit),
        all_of(keep_b, CharClass::Digit),
        size.len() > 0,
        a.len() > 0,
        b.len() > 0,
        keep_a.len() > 0,
        keep_b.len() > 0,
        digits_value(count) <= usize::MAX,
        digits_value(size) <= i64::MAX,
        1 <= digits_value(a),
        1 <= digits_value(b),
        digits_value(a) + digits_value(keep_a) == count_of(count),
        digits_value(b) + digits_value(keep_b) == count_of(count),
    ensures
        group_of(
            dice_text(count, size, modifier_text(seq![token('d', 'l', a), token('d', 'h', b)])),
        ) == group_of(
            dice_text(
                count,
                size,
                modifier_text(seq![token('k', 'h', keep_a), token('k', 'l', keep_b)]),
            ),
        ),
{
    let drops = seq![token('d', 'l', a), token('d', 'h', b)];
    let keeps = seq![token('k', 'h', keep_a), token('k', 'l', keep_b)];
    let die = DiceView::plain(digits_value(size) as i64, count_of(count) as usize);
    lemma_two_letters('d', 'l');
    lemma_two_letters('d', 'h');
    lemma_two_letters('k', 'h');
    lemma_two_letters('k', 'l');
    assert(tokens_formed(drops));
    assert(tokens_formed(keeps));
    lemma_dice_with_modifiers(count, size, drops);
    lemma_dice_with_modifiers(count, size, keeps);
    let na = digits_value(a) as usize;
    let nb = digits_value(b) as usize;
    lemma_decode_two(drops);
    lemma_decode_two(keeps);
    assert(decode(drops[0]) == Ok::<ModifierGroup, ParseErrorView>(ModifierGroup::DropLowest(na)))
        by {
        lemma_codes_differ();
    }
    assert(decode(drops[1]) == Ok::<ModifierGroup, ParseErrorView>(ModifierGroup::DropHighest(nb)))
        by {
        lemma_codes_differ();
    }
    assert(decode(keeps[0]) == Ok::<ModifierGroup, ParseErrorView>(
        ModifierGroup::KeepHighest((die.count - na) as usize),
    )) by {
        lemma_codes_differ();
    }
    assert(decode(keeps[1]) == Ok::<ModifierGroup, ParseErrorView>(
        ModifierGroup::KeepLowest((die.count - nb) as usize),
    )) by {
        lemma_codes_differ();
    }
    lemma_drop_is_keep(die, na, nb);
    assert(seq![ModifierGroup::DropLowest(na)].push(ModifierGroup::DropHighest(nb)) =~= seq![
        ModifierGroup::DropLowest(na),
        ModifierGroup::DropHighest(nb),
    ]);
    assert(seq![ModifierGroup::KeepHighest((die.count - na) as usize)].push(
        ModifierGroup::KeepLowest((die.count - nb) as usize),
    ) =~= seq![
        ModifierGroup::KeepHighest((die.count - na) as usize),
        ModifierGroup::KeepLowest((die.count - nb) as usize),
    ]);
}

/// The same equivalence for the whole expression: `{n}d{s}dl{a}dh{b}` and
/// `{n}d{s}kh{n-a}kl{n-b}` give the same bag, or the same error.
pub proof fn lemma_drop_keep_bags(
    count: Seq<char>,
    size: Seq<char>,
    a: Seq<char>,
    b: Seq<char>,
    keep_a: Seq<char>,
    keep_b: Seq<char>,
)
    requires
        all_of(count, CharClass::Digit),
        all_of(size, CharClass::Digit),
        all_of(a, CharClass::Digit),
        all_of(b, CharClass::Digit),
        all_of(keep_a, CharClass::Digit),
        all_of(keep_b, CharClass::Digit),
        size.len() > 0,
        a.len() > 0,
        b.len() > 0,
        keep_a.len() > 0,
        keep_b.len() > 0,
        digits_value(count) <= usize::MAX,
        digits_value(size) <= i64::MAX,
        1 <= digits_value(a),
        1 <= digits_value(b),
        digits_value(a) + digits_value(keep_a) == count_of(count),
        digits_value(b) + digits_value(keep_b) == count_of(count),
    ensures
        bag_of(
            dice_text(count, size, modifier_text(seq![token('d', 'l', a), token('d', 'h', b)])),
        ) == bag_of(
            dice_text(
                count,
                size,
                modifier_text(seq![token('k', 'h', keep_a), token('k', 'l', keep_b)]),
            ),
        ),
{
    let drops = seq![token('d', 'l', a), token('d', 'h', b)];
    let keeps = seq![token('k', 'h', keep_a), token('k', 'l', keep_b)];
    lemma_two_letters('d', 'l');
    lemma_two_letters('d', 'h');
    lemma_two_letters('k', 'h');
    lemma_two_letters('k', 'l');
    lemma_two_allowed('d', 'l');
    lemma_two_allowed('d', 'h');
    lemma_two_allowed('k', 'h');
    lemma_two_allowed('k', 'l');
    assert(tokens_formed(drops));
    assert(tokens_formed(keeps));
    lemma_dice_text_allowed(count, size, drops);
    lemma_dice_text_allowed(count, size, keeps);
    lemma_one_group(dice_text(count, size, modifier_text(drops)));
    lemma_one_group(dice_text(count, size, modifier_text(keeps)));
    lemma_drop_keep_equivalence(count, size, a, b, keep_a, keep_b);
}

/// The expressions `{n}d{s}dl{a}dh{b}` and `{n}d{s}kh{n-a}kl{n-b}`, with
/// all numbers written in base ten, give the same bag or the same error,
/// for every `a` and `b` from one to `n`.
pub proof fn lemma_drop_keep_written(n: usize, s: i64, a: usize, b: usize)
    requires
        0 <= s,
        1 <= a <= n,
        1 <= b <= n,
    ensures
        bag_of(
            dice_text(
                decimal(n as nat),
                decimal(s as nat),
                modifier_text(
                    seq![token('d', 'l', decimal(a as nat)), token('d', 'h', decimal(b as nat))],
                ),
            ),
        ) == bag_of(
            dice_text(
                decimal(n as nat),
                decimal(s as nat),
                modifier_text(
                    seq![
                        token('k', 'h', decimal((n - a) as nat)),
                        token('k', 'l', decimal((n - b) as nat)),
                    ],
                ),
            ),
        ),
{
    lemma_decimal(n as nat);
    lemma_decimal(s as nat);
    lemma_decimal(a as nat);
    lemma_decimal(b as nat);
    lemma_decimal((n - a) as nat);
    lemma_decimal((n - b) as nat);
    lemma_drop_keep_bags(
        decimal(n as nat),
        decimal(s as nat),
        decimal(a as nat),
        decimal(b as nat),
        decimal((n - a) as nat),
        decimal((n - b) as nat),
    );
}

/// The four codes of the drop clause.
pub open spec fn drop_code(first: char, second: char) -> bool {
    (first == 'd' || first == 'k') && (second == 'l' || second == 'h')
}

/// A drop modifier whose number is the count of the dice, or more, is an
/// excessive drop: `{n}d{s}dl{k}` with `k >= n` is refused so, and the same
/// with `dh`, `kl` and `kh`.
pub proof fn lemma_excessive_drop(
    count: Seq<char>,
    size: Seq<char>,
    first: char,
    second: char,
    k: Seq<char>,
)
    requires
        all_of(count, CharClass::Digit),
        all_of(size, CharClass::Digit),
        all_of(k, CharClass::Digit),
        size.len() > 0,
        k.len() > 0,
        digits_value(count) <= usize::MAX,
        digits_value(size) <= i64::MAX,
        digits_value(k) <= usize::MAX,
        drop_code(first, second),
        digits_value(k) >= count_of(count),
    ensures
        group_of(dice_text(count, size, modifier_text(seq![token(first, second, k)]))) == Err::<
            DiceGroupView,
            ParseErrorView,
        >(ParseErrorView::ExcessiveDrop),
        bag_of(dice_text(count, size, modifier_text(seq![token(first, second, k)]))) == Err::<
            Seq<DiceGroupView>,
            ParseErrorView,
        >(ParseErrorView::ExcessiveDrop),
{
    let tokens = seq![token(first, second, k)];
    let die = DiceView::plain(digits_value(size) as i64, count_of(count) as usize);
    let n = digits_value(k) as usize;
    lemma_two_letters(first, second);
    lemma_two_allowed(first, second);
    assert(tokens_formed(tokens));
    lemma_dice_with_modifiers(count, size, tokens);
    lemma_dice_text_allowed(count, size, tokens);
    lemma_one_group(dice_text(count, size, modifier_text(tokens)));
    lemma_codes_differ();
    reveal_with_fuel(decode_all, 2);
    assert(tokens.drop_last() =~= Seq::<TokenView>::empty());
    let m = decode(tokens[0])->Ok_0;
    assert(decode(tokens[0]) is Ok);
    assert(decode_all(tokens) == Ok::<Seq<ModifierGroup>, ParseErrorView>(seq![m])) by {
        assert(Seq::<ModifierGroup>::empty().push(m) =~= seq![m]);
    }
    assert(seq![m].drop_last() =~= Seq::<ModifierGroup>::empty());
    reveal_with_fuel(drop_scan, 2);
    assert(drop_scan(seq![m], die.count) == Err::<DropState, ParseErrorView>(
        ParseErrorView::ExcessiveDrop,
    ));
}

/// The expression `{n}d{s}dl{k}`, with all numbers written in base ten,
/// is refused as an excessive drop for every `k` that is `n` at least,
/// and so it is with `dh`, `kl` and `kh` in the place of `dl`.
pub proof fn lemma_excessive_drop_written(n: usize, s: i64, first: char, second: char, k: usize)
    requires
        0 <= s,
        drop_code(first, second),
        k >= n,
    ensures
        bag_of(
            dice_text(
                decimal(n as nat),
                decimal(s as nat),
                modifier_text(seq![token(first, second, decimal(k as nat))]),
            ),
        ) == Err::<Seq<DiceGroupView>, ParseErrorView>(ParseErrorView::ExcessiveDrop),
{
    lemma_decimal(n as nat);
    lemma_decimal(s as nat);
    lemma_decimal(k as nat);
    lemma_excessive_drop(
        decimal(n as nat),
        decimal(s as nat),
        first,
        second,
        decimal(k as nat),
    );
}

/// A `!` at the end of a group makes its dice explosive, and nothing else
/// does.
pub proof fn lemma_explosive_mark(g: Seq<char>)
    ensures
        group_of(g) matches Ok(DiceGroupView::Dice(die)) ==> die.explosive == (g.last() == '!'),
{
}

/// A `!` that is not the last character of its group has the group
/// refused.
pub proof fn lemma_misplaced_mark(g: Seq<char>, at: int)
    requires
        0 <= at < g.len() - 1,
        g[at] == '!',
    ensures
        group_of(g) is Err,
{
    assert(!digit(g[at]));
    if holds_d_numeric(g) {
        let body = if g.last() == '!' {
            g.drop_last()
        } else {
            g
        };
        assert(body[at] == '!');
    }
}

/// A `!` that is followed by anything but an operator has the groups
/// from any position before it refused.
proof fn lemma_misplaced_from(s: Seq<char>, from: int, op: DiceOp, at: int)
    requires
        0 <= from <= at < s.len() - 1,
        s[at] == '!',
        !(s[at + 1] == '+' || s[at + 1] == '-'),
    ensures
        groups_from(s, from, op) is Err,
    decreases s.len() - from,
{
    crate::text::lemma_run_end(s, from, CharClass::Operand);
    let end = run_end(s, from, CharClass::Operand);
    if at < end {
        let g = s.subrange(from, end);
        assert(at + 1 < end) by {
            if at + 1 == end {
                assert(!CharClass::Operand.holds(s[end]));
            }
        }
        assert(g[at - from] == '!');
        lemma_misplaced_mark(g, at - from);
    } else {
        assert(end < s.len());
        assert(!CharClass::Operand.holds(s[end]));
        assert(at != end);
        lemma_misplaced_from(s, end + 1, crate::parse::sign_of(s[end]), at);
    }
}

/// A `!` that is followed by anything but an operator has the whole
/// expression refused.
pub proof fn lemma_misplaced_mark_in_bag(s: Seq<char>, at: int)
    requires
        0 <= at < s.len() - 1,
        s[at] == '!',
        !(s[at + 1] == '+' || s[at + 1] == '-'),
    ensures
        bag_of(s) is Err,
{
    lemma_misplaced_from(s, 0, DiceOp::Add, at);
}

/// Whether the kept positions are those of a group of `count` dice
/// without some of its lowest and some of its highest dice, one die at
/// least being kept.
pub open spec fn keeps_middle(keep: Seq<usize>, count: usize) -> bool {
    exists|m: usize, n: usize|
        m + n < count && keep == #[trigger] index_run(m, (count - n) as usize)
}

/// Whether a drop clause leaves a die at least of `count` dice.
pub open spec fn drop_sound(drop: DropView, count: usize) -> bool {
    match drop {
        DropView::Non => true,
        DropView::Lowest(n) | DropView::Highest(n) => n < count,
        DropView::Custom(keep) => keeps_middle(keep, count),
    }
}

/// Whether the threshold of a reroll clause is one that some dice of
/// `size` sides meet and some do not.
pub open spec fn reroll_sound(reroll: ReRoll, size: i64) -> bool {
    match reroll {
        ReRoll::Never => true,
        ReRoll::IfAbove(t) => 1 <= t.ex_threshold < size,
        ReRoll::IfBelow(t) => 1 < t.ex_threshold <= size,
    }
}

/// Whether the bounds of a cutoff clause lie among the faces of a die of
/// `size` sides, change something, and stand in order.
pub open spec fn cutoff_sound(cutoff: CutOff, size: i64) -> bool {
    match cutoff {
        CutOff::Non => true,
        CutOff::Minimum(x) => 1 < x <= size,
        CutOff::Maximum(y) => 1 <= y < size,
        CutOff::Both(mm) => 1 < mm.lo() <= mm.hi() < size,
    }
}

impl DiceView {
    /// Whether the clauses of the group are such as rolling can handle.
    pub open spec fn clauses_sound(self) -> bool {
        &&& drop_sound(self.drop, self.count)
        &&& reroll_sound(self.reroll, self.size)
        &&& cutoff_sound(self.cutoff, self.size)
    }
}

/// Whether the group, if it is dice, has sound clauses.
pub open spec fn group_sound(g: DiceGroupView) -> bool {
    match g {
        DiceGroupView::Bonus(_) => true,
        DiceGroupView::Dice(d) => d.clauses_sound(),
    }
}

/// Whether every group of dice has sound clauses.
pub open spec fn groups_sound(groups: Seq<DiceGroupView>) -> bool {
    forall|i: int| 0 <= i < groups.len() ==> group_sound(#[trigger] groups[i])
}

/// What the drop modifiers ask for is below the count of the dice.
proof fn lemma_drop_scan_sound(mods: Seq<ModifierGroup>, count: usize)
    ensures
        drop_scan(mods, count) matches Ok(st) ==> (st.lowest matches Some(m) ==> m < count) && (
        st.highest matches Some(n) ==> n < count),
    decreases mods.len(),
{
    if mods.len() > 0 {
        lemma_drop_scan_sound(mods.drop_last(), count);
    }
}

/// The threshold that the reroll modifiers ask for lies among the faces.
proof fn lemma_reroll_scan_sound(mods: Seq<ModifierGroup>, size: i64)
    ensures
        reroll_scan(mods, size) matches Ok(st) ==> (st.threshold matches Some((above, x))
            ==> if above {
            1 <= x < size
        } else {
            1 < x <= size
        }),
    decreases mods.len(),
{
    if mods.len() > 0 {
        lemma_reroll_scan_sound(mods.drop_last(), size);
    }
}

/// The bounds that the cutoff modifiers ask for lie among the faces.
proof fn lemma_cutoff_scan_sound(mods: Seq<ModifierGroup>, size: i64)
    ensures
        cutoff_scan(mods, size) matches Ok(st) ==> (st.minimum matches Some(x) ==> 1 < x <= size)
            && (st.maximum matches Some(y) ==> 1 <= y < size),
    decreases mods.len(),
{
    if mods.len() > 0 {
        lemma_cutoff_scan_sound(mods.drop_last(), size);
    }
}

/// Whatever modifiers are settled on a group, the clauses that come of
/// them are sound: no combination that rolling cannot handle gets past.
pub proof fn lemma_resolved_is_sound(mods: Seq<ModifierGroup>, die: DiceView)
    ensures
        resolve(mods, die) matches Ok(settled) ==> settled.clauses_sound(),
{
    lemma_drop_scan_sound(mods, die.count);
    lemma_reroll_scan_sound(mods, die.size);
    lemma_cutoff_scan_sound(mods, die.size);
    if let Ok(settled) = resolve(mods, die) {
        let st = drop_scan(mods, die.count)->Ok_0;
        if let (Some(m), Some(n)) = (st.lowest, st.highest) {
            assert(settled.drop == DropView::Custom(index_run(m, (die.count - n) as usize)));
            assert(keeps_middle(index_run(m, (die.count - n) as usize), die.count));
        }
    }
}

/// Every group of dice that is read from text has sound clauses.
pub proof fn lemma_parsed_group_is_sound(g: Seq<char>)
    ensures
        group_of(g) matches Ok(group) ==> group_sound(group),
{
    if let Ok(group) = group_of(g) {
        if let DiceGroupView::Dice(d) = group {
            let body = if g.last() == '!' {
                g.drop_last()
            } else {
                g
            };
            let (die, after) = base_of(body)->Ok_0;
            let tokens = tokens_from(body, after)->Ok_0;
            let mods = decode_all(tokens)->Ok_0;
            lemma_resolved_is_sound(mods, die);
        }
    }
}

/// Every group that is read from an expression has sound clauses.
proof fn lemma_parsed_groups_are_sound(s: Seq<char>, from: int, op: DiceOp)
    ensures
        groups_from(s, from, op) matches Ok(groups) ==> groups_sound(groups),
    decreases s.len() - from,
{
    if let Ok(groups) = groups_from(s, from, op) {
        let end = run_end(s, from, CharClass::Operand);
        let piece = s.subrange(from, end);
        lemma_parsed_group_is_sound(piece);
        let g = group_of(piece)->Ok_0;
        assert(group_sound(g.with_op(op)));
        if end == s.len() {
            assert(groups =~= seq![g.with_op(op)]);
        } else {
            lemma_parsed_groups_are_sound(s, end + 1, sign_of(s[end]));
            let more = groups_from(s, end + 1, sign_of(s[end]))->Ok_0;
            assert(groups =~= seq![g.with_op(op)] + more);
            assert forall|i: int| 0 <= i < groups.len() implies group_sound(
                #[trigger] groups[i],
            ) by {
                if i > 0 {
                    assert(groups[i] == more[i - 1]);
                }
            }
        }
    }
}

/// Every bag that is read from an expression has sound clauses in all its
/// groups of dice: what parsing lets through, rolling can handle, as far
/// as the clauses go.
pub proof fn lemma_parsed_bag_is_sound(s: Seq<char>)
    ensures
        bag_of(s) matches Ok(groups) ==> groups_sound(groups),
{
    lemma_parsed_groups_are_sound(s, 0, DiceOp::Add);
}

/// A group with sound clauses and dice of a side at least has its faces
/// covered by the range, and its drop clause can be applied to its dice.
pub proof fn lemma_sound_is_covered(d: DiceView)
    requires
        d.clauses_sound(),
        1 <= d.size,
    ensures
        d.faces_covered(),
        drop_applies(d.drop, d.count as nat),
        d.least() <= d.greatest(),
{
    if let DropView::Custom(keep) = d.drop {
        let (m, n) = choose|m: usize, n: usize|
            m + n < d.count && keep == #[trigger] index_run(m, (d.count - n) as usize);
        assert forall|i: int| 0 <= i < keep.len() implies (#[trigger] keep[i]) < d.count by {
            assert(keep[i] == (m + i) as usize);
        }
        assert(positions_below(keep, d.count as nat));
    }
    let lo = d.cutoff.face_min(d.size);
    let hi = d.cutoff.face_max(d.size);
    let n = d.true_count() as int;
    assert(lo * n <= hi * n) by (nonlinear_arith)
        requires
            lo <= hi,
            n >= 0,
    ;
}

/// What the bonuses among the groups come to when each is counted once,
/// as the range counts them.
pub open spec fn plain_bonus_of(groups: Seq<DiceGroupView>) -> int
    decreases groups.len(),
{
    if groups.len() == 0 {
        0
    } else {
        let before = plain_bonus_of(groups.drop_last());
        match groups.last() {
            DiceGroupView::Dice(_) => before,
            DiceGroupView::Bonus(b) => b.op.apply(before, b.bonus as int),
        }
    }
}

impl DiceView {
    /// Whether the faces that the range attributes to a die cover the
    /// faces that a die shows once the cutoff clause has been applied.
    pub open spec fn faces_covered(self) -> bool {
        &&& self.cutoff.face_min(self.size) <= self.least_face()
        &&& self.greatest_face() <= self.cutoff.face_max(self.size)
    }

    /// Whether every roll keeps as many values as the range counts: the
    /// dice do not explode, or a custom drop clause picks the values, or
    /// there is no die.
    pub open spec fn keeps_true_count(self) -> bool {
        !self.explosive || self.drop is Custom || self.count == 0
    }
}

/// Whether the range of the groups holds every total that a roll of them
/// may give, as far as the dice go. Each group of dice must have its faces
/// covered and keep as many values as the range counts. A group of dice
/// that is subtracted must moreover have one sum only, or come after
/// groups whose range is a single total: else the range, which takes the
/// least from the least and the greatest from the greatest, is narrower
/// than the totals.
pub open spec fn range_holds_dice(groups: Seq<DiceGroupView>) -> bool
    decreases groups.len(),
{
    if groups.len() == 0 {
        true
    } else {
        &&& range_holds_dice(groups.drop_last())
        &&& match groups.last() {
            DiceGroupView::Bonus(_) => true,
            DiceGroupView::Dice(d) => {
                &&& d.faces_covered()
                &&& d.keeps_true_count()
                &&& (d.op == DiceOp::Add || d.least() == d.greatest() || range_of(
                    groups.drop_last(),
                ).0 == range_of(groups.drop_last()).1)
            },
        }
    }
}

/// The sum of what a group keeps lies between the least and the greatest
/// that the range attributes to the group, if the group has its faces
/// covered and keeps as many values as the range counts.
pub proof fn lemma_kept_sum_in_range(d: DiceView, results: Seq<i64>, total: i64)
    requires
        d.admits(results, total),
        d.faces_covered(),
        d.keeps_true_count(),
    ensures
        d.least() <= sum_of(results) <= d.greatest(),
{
    let lo = d.cutoff.face_min(d.size);
    let hi = d.cutoff.face_max(d.size);
    let n = results.len() as int;
    assert(d.most_kept() == d.least_kept()) by {
        if d.explosive && d.count == 0 {
            assert(0 * (crate::roll::EXPLOSION_LIMIT + 1) == 0) by (nonlinear_arith);
        }
    }
    assert(n == d.true_count());
    assert(all_within(results, lo, hi)) by {
        assert forall|i: int| 0 <= i < results.len() implies lo <= #[trigger] results[i] <= hi by {
            assert(d.least_face() <= results[i] <= d.greatest_face());
        }
    }
    lemma_sum_bounds(results, lo, hi);
    assert(n * lo == lo * n) by (nonlinear_arith);
    assert(n * hi == hi * n) by (nonlinear_arith);
}

/// The dice of the groups and the reports of a roll, taken together with
/// the bonuses counted once, stay within the range.
proof fn lemma_plain_total_in_range(groups: Seq<DiceGroupView>, reports: Seq<DiceResult>)
    requires
        range_holds_dice(groups),
        reports_admitted(dice_in(groups), reports),
    ensures
        range_of(groups).0 <= plain_bonus_of(groups) + totals_sum(reports) <= range_of(groups).1,
    decreases groups.len(),
{
    if groups.len() > 0 {
        let before = groups.drop_last();
        match groups.last() {
            DiceGroupView::Bonus(b) => {
                lemma_plain_total_in_range(before, reports);
            },
            DiceGroupView::Dice(d) => {
                let dice = dice_in(groups);
                assert(dice == dice_in(before).push(d));
                let earlier = reports.drop_last();
                let report = reports.last();
                assert(reports_admitted(dice_in(before), earlier)) by {
                    assert forall|j: int| 0 <= j < dice_in(before).len() implies (
                    #[trigger] earlier[j]).dice@ == dice_in(before)[j] && dice_in(before)[j].admits(
                        earlier[j].results@,
                        earlier[j].total,
                    ) by {
                        assert(earlier[j] == reports[j]);
                        assert(dice[j] == dice_in(before)[j]);
                    }
                }
                lemma_plain_total_in_range(before, earlier);
                assert(reports[reports.len() - 1] == report);
                assert(dice[dice.len() - 1] == d);
                assert(d.admits(report.results@, report.total));
                lemma_kept_sum_in_range(d, report.results@, report.total);
            },
        }
    }
}

/// The total of a roll lies within the range of the bag, for every bag
/// whose range holds its dice and whose bonuses come to the same in a
/// roll as when each is counted once.
///
/// The other bags are left out because the range does not hold their
/// totals: dice that are subtracted after dice, as in `5d6 - 10d10`;
/// exploding dice without a custom drop clause, as in `1d6!`; and a
/// second bonus after a bonus that is not zero, as in `1d6 + 2 + 3`,
/// where a roll adds the first bonus twice.
pub proof fn lemma_total_within_range(groups: Seq<DiceGroupView>, r: RollResults)
    requires
        admitted(groups, r),
        range_holds_dice(groups),
        bonus_total_of(groups) == plain_bonus_of(groups),
    ensures
        range_of(groups).0 <= r.total <= range_of(groups).1,
{
    lemma_plain_total_in_range(groups, r.dice_groups@);
}

/// Whether a group, if it is dice, is added, does not explode, has dice
/// of a side at least, and has sound clauses.
pub open spec fn added_plainly(g: DiceGroupView) -> bool {
    match g {
        DiceGroupView::Bonus(_) => true,
        DiceGroupView::Dice(d) => d.op == DiceOp::Add && !d.explosive && 1 <= d.size
            && d.clauses_sound(),
    }
}

/// Whether every group of dice is added plainly.
pub open spec fn all_added_plainly(groups: Seq<DiceGroupView>) -> bool {
    forall|i: int| 0 <= i < groups.len() ==> added_plainly(#[trigger] groups[i])
}

/// How many bonuses stand among the groups.
pub open spec fn bonus_count(groups: Seq<DiceGroupView>) -> nat
    decreases groups.len(),
{
    if groups.len() == 0 {
        0
    } else {
        bonus_count(groups.drop_last()) + match groups.last() {
            DiceGroupView::Bonus(_) => 1nat,
            DiceGroupView::Dice(_) => 0nat,
        }
    }
}

/// The range holds every total of a bag whose dice are all added plainly
/// and that has one bonus at most: the usual bag, such as `4d6dl1 + 2`.
pub proof fn lemma_plain_bags_hold_totals(groups: Seq<DiceGroupView>)
    requires
        all_added_plainly(groups),
        bonus_count(groups) <= 1,
    ensures
        range_holds_dice(groups),
        bonus_total_of(groups) == plain_bonus_of(groups),
        bonus_count(groups) == 0 ==> bonus_total_of(groups) == 0,
    decreases groups.len(),
{
    if groups.len() > 0 {
        let before = groups.drop_last();
        assert(all_added_plainly(before)) by {
            assert forall|i: int| 0 <= i < before.len() implies added_plainly(
                #[trigger] before[i],
            ) by {
                assert(before[i] == groups[i]);
            }
        }
        lemma_plain_bags_hold_totals(before);
        assert(added_plainly(groups[groups.len() - 1]));
        if let DiceGroupView::Dice(d) = groups.last() {
            lemma_sound_is_covered(d);
        }
    }
}

} // verus!
