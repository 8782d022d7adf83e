//! From the text of an expression to a bag of dice.
//!
//! The text is lowered and stripped of blanks, held against the characters
//! that expressions are made of, cut at the operators `+` and `-` into
//! groups, and each group is read as a plain number or as dice with their
//! modifiers.

use crate::distribution::{
    range_fits, views_of, Bonus, Dice, DiceBag, DiceGroup, DiceGroupView, DiceOp, DiceView,
};
use crate::error::{ahead, ParseError, ParseErrorView};
use crate::modifiers::{clauses_of, parse_conditional_clauses};
use crate::text::{
    all_of, char_to_op, digit, digits_value, is_letter, lemma_run_end, letter, number_of, run_end,
    slice_of, take_run, CharClass,
};
use vstd::prelude::*;

verus! {

/// Whether a `d` stands at `i` with a digit right after it.
pub open spec fn d_numeric_at(s: Seq<char>, i: int) -> bool {
    0 <= i && i + 1 < s.len() && s[i] == 'd' && digit(s[i + 1])
}

/// Whether `s` holds a `d` with a digit right after it.
pub open spec fn holds_d_numeric(s: Seq<char>) -> bool {
    exists|i: int| d_numeric_at(s, i)
}

/// Whether `checked` holds a `d` with a digit right after it.
pub fn has_d_numeric(checked: &Vec<char>) -> (r: bool)
    ensures
        r == holds_d_numeric(checked@),
{
    let mut i: usize = 1;
    while i < checked.len()
        invariant
            1 <= i,
            forall|j: int| 0 <= j < i - 1 ==> !d_numeric_at(checked@, j),
        decreases checked.len() - i,
    {
        if checked[i - 1] == 'd' && CharClass::Digit.contains(checked[i]) {
            assert(d_numeric_at(checked@, i - 1));
            return true;
        }
        i = i + 1;
    }
    false
}

/// Whether `c` is among `chars`.
fn holds_char(chars: &Vec<char>, c: char) -> (r: bool)
    ensures
        r == chars@.contains(c),
{
    let mut i: usize = 0;
    while i < chars.len()
        invariant
            i <= chars.len(),
            forall|j: int| 0 <= j < i ==> chars@[j] != c,
        decreases chars.len() - i,
    {
        if chars[i] == c {
            return true;
        }
        i = i + 1;
    }
    false
}

/// The base of a dice group: its digits of the count, which may be
/// missing and then stand for one, a `d`, and its digits of the size. The
/// result is the plain dice of that count and size, and the position after
/// the base. A text that does not begin so is refused: as
/// `BonusCannotHaveModifiers` where a number is followed by a letter other
/// than `d`, as `ModifierMustStartWithLetter` where it is followed by
/// anything else, as `NotDiceOrBonus` in every other case. A count above
/// `usize::MAX` or a size above `i64::MAX` is refused as `NumberTooLarge`.
pub open spec fn base_of(body: Seq<char>) -> Result<(DiceView, int), ParseErrorView> {
    let a = run_end(body, 0, CharClass::Digit);
    let b = run_end(body, a + 1, CharClass::Digit);
    if a >= body.len() {
        Err(ParseErrorView::NotDiceOrBonus)
    } else if body[a] == 'd' {
        let count = digits_value(body.subrange(0, a));
        let size = digits_value(body.subrange(a + 1, b));
        if b == a + 1 {
            Err(ParseErrorView::NotDiceOrBonus)
        } else if count > usize::MAX || size > i64::MAX {
            Err(ParseErrorView::NumberTooLarge)
        } else {
            Ok(
                (
                    DiceView::plain(
                        size as i64,
                        if a == 0 {
                            1
                        } else {
                            count as usize
                        },
                    ),
                    b,
                ),
            )
        }
    } else if a == 0 {
        Err(ParseErrorView::NotDiceOrBonus)
    } else if letter(body[a]) {
        Err(ParseErrorView::BonusCannotHaveModifiers)
    } else {
        Err(ParseErrorView::ModifierMustStartWithLetter)
    }
}

/// Dice with their modifiers: the base, then the clauses of what follows
/// it.
pub open spec fn dice_of(body: Seq<char>) -> Result<DiceView, ParseErrorView> {
    match base_of(body) {
        Err(e) => Err(e),
        Ok((die, after)) => clauses_of(body, after, die),
    }
}

/// What one group of an expression stands for, its operator not yet set.
///
/// Nothing at all is an `EmptyOrMissingGroup`. Digits alone are a bonus,
/// unless they write more than `i64::MAX`. Anything else must hold a `d`
/// followed by a digit. A `!` at its end makes the dice explosive and is
/// taken off; a `!` that is left then is a `MisplacedExplosiveMarker`.
/// What remains is read as dice with their modifiers.
pub open spec fn group_of(g: Seq<char>) -> Result<DiceGroupView, ParseErrorView> {
    if g.len() == 0 {
        Err(ParseErrorView::EmptyOrMissingGroup)
    } else if all_of(g, CharClass::Digit) {
        if digits_value(g) > i64::MAX {
            Err(ParseErrorView::NumberTooLarge)
        } else {
            Ok(DiceGroupView::Bonus(Bonus { bonus: digits_value(g) as i64, op: DiceOp::Add }))
        }
    } else if !holds_d_numeric(g) {
        Err(ParseErrorView::NotDiceOrBonus)
    } else {
        let explosive = g.last() == '!';
        let body = if explosive {
            g.drop_last()
        } else {
            g
        };
        if body.contains('!') {
            Err(ParseErrorView::MisplacedExplosiveMarker)
        } else {
            match dice_of(body) {
                Err(e) => Err(e),
                Ok(die) => Ok(DiceGroupView::Dice(DiceView { explosive, ..die })),
            }
        }
    }
}

/// The operator that the character before a group gives it.
pub open spec fn sign_of(c: char) -> DiceOp {
    if c == '-' {
        DiceOp::Sub
    } else {
        DiceOp::Add
    }
}

/// The groups of the expression `s` from `from` on, the first of them
/// with the operator `op`. A group ends before the next `+` or `-`, which
/// is the operator of the group after it. The first group that is refused
/// gives the error.
pub open spec fn groups_from(s: Seq<char>, from: int, op: DiceOp) -> Result<
    Seq<DiceGroupView>,
    ParseErrorView,
>
    decreases s.len() - from,
{
    let end = run_end(s, from, CharClass::Operand);
    if from < 0 || from > s.len() || end < from || end > s.len() {
        Err(ParseErrorView::EmptyOrMissingGroup)
    } else {
        match group_of(s.subrange(from, end)) {
            Err(e) => Err(e),
            Ok(g) => if end == s.len() {
                Ok(seq![g.with_op(op)])
            } else {
                ahead(seq![g.with_op(op)], groups_from(s, end + 1, sign_of(s[end])))
            },
        }
    }
}

/// The groups of the bag that the lowered and stripped expression `s`
/// stands for. The first character that no expression uses is an
/// `InvalidCharacter`. A bag whose range does not fit in `i64` is refused
/// as `NumberTooLarge`.
pub open spec fn bag_of(s: Seq<char>) -> Result<Seq<DiceGroupView>, ParseErrorView> {
    let bad = run_end(s, 0, CharClass::Allowed);
    if 0 <= bad < s.len() {
        Err(ParseErrorView::InvalidCharacter(s[bad]))
    } else {
        match groups_from(s, 0, DiceOp::Add) {
            Err(e) => Err(e),
            Ok(groups) => if range_fits(groups) {
                Ok(groups)
            } else {
                Err(ParseErrorView::NumberTooLarge)
            },
        }
    }
}

/// Reads the base of a dice group: the plain dice that it stands for, and
/// the position after it.
pub fn parse_base_dice(body: &Vec<char>) -> (r: Result<(Dice, usize), ParseError>)
    ensures
        match base_of(body@) {
            Ok((die, after)) => r matches Ok((found, at)) && found@ == die && at == after
                && at <= body.len(),
            Err(e) => r matches Err(err) && err@ == e,
        },
{
    let a = take_run(body, 0, CharClass::Digit);
    if a >= body.len() {
        return Err(ParseError::NotDiceOrBonus);
    }
    if body[a] != 'd' {
        if a == 0 {
            return Err(ParseError::NotDiceOrBonus);
        } else if is_letter(body[a]) {
            return Err(ParseError::BonusCannotHaveModifiers);
        } else {
            return Err(ParseError::ModifierMustStartWithLetter);
        }
    }
    let b = take_run(body, a + 1, CharClass::Digit);
    if b == a + 1 {
        return Err(ParseError::NotDiceOrBonus);
    }
    let count_digits = slice_of(body, 0, a);
    let size_digits = slice_of(body, a + 1, b);
    proof {
        lemma_run_end(body@, 0, CharClass::Digit);
        lemma_run_end(body@, a + 1, CharClass::Digit);
    }
    let count = number_of(&count_digits, usize::MAX as u64);
    let size = number_of(&size_digits, i64::MAX as u64);
    match (count, size) {
        (Some(c), Some(s)) => {
            let counts: usize = if a == 0 {
                1
            } else {
                c as usize
            };
            Ok((Dice::with_size_and_count(s as i64, counts), b))
        },
        _ => Err(ParseError::NumberTooLarge),
    }
}

/// Reads one group of an expression. Its operator is `Add`.
pub fn parse_string_to_dicegroup(input: &Vec<char>) -> (r: Result<DiceGroup, ParseError>)
    ensures
        match group_of(input@) {
            Ok(g) => r matches Ok(found) && found@ == g,
            Err(e) => r matches Err(err) && err@ == e,
        },
{
    if input.len() == 0 {
        return Err(ParseError::EmptyOrMissingGroup);
    }
    let digits_end = take_run(input, 0, CharClass::Digit);
    proof {
        lemma_run_end(input@, 0, CharClass::Digit);
    }
    if digits_end == input.len() {
        return match number_of(input, i64::MAX as u64) {
            Some(n) => Ok(DiceGroup::bonus(n as i64)),
            None => Err(ParseError::NumberTooLarge),
        };
    }
    if !has_d_numeric(input) {
        return Err(ParseError::NotDiceOrBonus);
    }
    let explosive = input[input.len() - 1] == '!';
    let body = if explosive {
        slice_of(input, 0, input.len() - 1)
    } else {
        slice_of(input, 0, input.len())
    };
    proof {
        if explosive {
            assert(body@ =~= input@.drop_last());
        } else {
            assert(body@ =~= input@);
        }
    }
    if holds_char(&body, '!') {
        return Err(ParseError::MisplacedExplosiveMarker);
    }
    let (mut dice, after) = match parse_base_dice(&body) {
        Ok(found) => found,
        Err(e) => {
            return Err(e);
        },
    };
    match parse_conditional_clauses(&body, after, &mut dice) {
        Ok(()) => {},
        Err(e) => {
            return Err(e);
        },
    }
    let mut group = DiceGroup::Dice(dice);
    group.is_explosive(explosive);
    Ok(group)
}

/// Cuts the expression at its operators and reads each group.
pub fn map_ops_and_parse(input: &Vec<char>) -> (r: Result<Vec<DiceGroup>, ParseError>)
    ensures
        match groups_from(input@, 0, DiceOp::Add) {
            Ok(groups) => r matches Ok(found) && views_of(found@) == groups,
            Err(e) => r matches Err(err) && err@ == e,
        },
{
    let mut output: Vec<DiceGroup> = Vec::new();
    let mut start: usize = 0;
    let mut op = DiceOp::Add;
    assert(views_of(output@) =~= Seq::<DiceGroupView>::empty());
    proof {
        match groups_from(input@, 0, DiceOp::Add) {
            Ok(groups) => {
                assert(Seq::<DiceGroupView>::empty() + groups =~= groups);
            },
            Err(_) => {},
        }
    }
    loop
        invariant
            start <= input.len(),
            groups_from(input@, 0, DiceOp::Add) == ahead(
                views_of(output@),
                groups_from(input@, start as int, op),
            ),
        decreases input.len() - start,
    {
        let end = take_run(input, start, CharClass::Operand);
        let piece = slice_of(input, start, end);
        let mut dice_group = match parse_string_to_dicegroup(&piece) {
            Ok(group) => group,
            Err(e) => {
                return Err(e);
            },
        };
        dice_group.add_op(op);
        let ghost before = views_of(output@);
        let ghost first = dice_group@;
        output.push(dice_group);
        assert(views_of(output@) =~= before.push(first));
        assert(before + seq![first] =~= before.push(first));
        if end == input.len() {
            return Ok(output);
        }
        proof {
            lemma_run_end(input@, start as int, CharClass::Operand);
            match groups_from(input@, end + 1, sign_of(input@[end as int])) {
                Ok(more) => {
                    assert(before + (seq![first] + more) =~= before.push(first) + more);
                },
                Err(_) => {},
            }
        }
        op = match char_to_op(input[end]) {
            Some(o) => o,
            None => DiceOp::Add,
        };
        start = end + 1;
    }
}

/// Reads an expression that has been lowered and stripped of blanks.
pub fn parse_chars(input: &Vec<char>) -> (r: Result<DiceBag, ParseError>)
    ensures
        match bag_of(input@) {
            Ok(groups) => r matches Ok(bag) && bag.groups() == groups && bag.wf(),
            Err(e) => r matches Err(err) && err@ == e,
        },
{
    let bad = take_run(input, 0, CharClass::Allowed);
    if bad < input.len() {
        return Err(ParseError::InvalidCharacter(input[bad]));
    }
    let parsed_groups = match map_ops_and_parse(input) {
        Ok(groups) => groups,
        Err(e) => {
            return Err(e);
        },
    };
    match DiceBag::try_from_dice(parsed_groups) {
        Some(bag) => Ok(bag),
        None => Err(ParseError::NumberTooLarge),
    }
}


/// The text that `str::to_lowercase` gives for a text.
pub uninterp spec fn lowered(s: Seq<char>) -> Seq<char>;

/// Whether `char::is_whitespace` holds of a character.
pub uninterp spec fn white(c: char) -> bool;

/// Whether `char::is_control` holds of a character.
pub uninterp spec fn control(c: char) -> bool;

/// Calls `str::to_lowercase`, which follows the Unicode rules for lower
/// case. Its result is given the name [`lowered`]; nothing more is
/// claimed of it.
#[verifier::external_body]
fn to_lowercase(input: &str) -> (r: String)
    ensures
        r@ == lowered(input@),
{
    input.to_lowercase()
}

/// Calls `char::is_whitespace`, which tells whether a character has the
/// Unicode property `White_Space`. Its result is given the name
/// [`white`]; nothing more is claimed of it.
#[verifier::external_body]
fn is_whitespace(c: char) -> (r: bool)
    ensures
        r == white(c),
{
    c.is_whitespace()
}

/// Calls `char::is_control`, which tells whether a character is a
/// control code of Unicode. Its result is given the name [`control`];
/// nothing more is claimed of it.
#[verifier::external_body]
fn is_control(c: char) -> (r: bool)
    ensures
        r == control(c),
{
    c.is_control()
}

/// The characters of `s` that are neither blanks nor control codes, in
/// their order.
pub open spec fn stripped(s: Seq<char>) -> Seq<char>
    decreases s.len(),
{
    if s.len() == 0 {
        s
    } else if white(s.last()) || control(s.last()) {
        stripped(s.drop_last())
    } else {
        stripped(s.drop_last()).push(s.last())
    }
}

/// The form in which an expression is read: lowered, and stripped of
/// blanks and control codes.
pub open spec fn normal_form(s: Seq<char>) -> Seq<char> {
    stripped(lowered(s))
}

/// Lowers the text and strips it of blanks and control codes.
pub fn normalize(input: &str) -> (r: Vec<char>)
    ensures
        r@ == normal_form(input@),
{
    let lower = to_lowercase(input);
    let text = lower.as_str();
    let mut out: Vec<char> = Vec::new();
    assert(text@.take(0) =~= Seq::<char>::empty());
    for c in it: text.chars()
        invariant
            it.seq() == text@,
            out@ == stripped(text@.take(it.index() as int)),
    {
        proof {
            let i = it.index() as int;
            assert(text@.take(i + 1).drop_last() =~= text@.take(i));
            assert(text@.take(i + 1).last() == c);
        }
        if !is_whitespace(c) && !is_control(c) {
            out.push(c);
        }
    }
    assert(text@.take(text@.len() as int) =~= text@);
    out
}

/// Reads a dice expression such as `3d6dl1 + 4`. Capitals count as small
/// letters, and blanks and control codes as nothing. The bag's range is
/// computed with it. An expression that is refused gives the error that
/// says why.
pub fn parse_bag(input: &str) -> (r: Result<DiceBag, ParseError>)
    ensures
        match bag_of(normal_form(input@)) {
            Ok(groups) => r matches Ok(bag) && bag.groups() == groups && bag.wf(),
            Err(e) => r matches Err(err) && err@ == e,
        },
{
    let chars = normalize(input);
    parse_chars(&chars)
}

/// Reads a dice expression as [`parse_bag`] does. An expression that is
/// refused gives the error in words.
pub fn parse(input: String) -> (r: Result<DiceBag, String>)
    ensures
        match bag_of(normal_form(input@)) {
            Ok(groups) => r matches Ok(bag) && bag.groups() == groups && bag.wf(),
            Err(e) => r matches Err(message) && message@ == e.text(),
        },
{
    match parse_bag(input.as_str()) {
        Ok(bag) => Ok(bag),
        Err(e) => Err(e.message()),
    }
}

} // verus!
