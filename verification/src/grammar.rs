//! The grammar of dice groups, and that reading follows it: a text that
//! the grammar admits is read as the grammar says, and nothing else is
//! read as dice.

use crate::distribution::{range_fits, CutOff, DiceGroupView, DiceOp, DiceView, DropView, ReRoll};
use crate::error::ParseErrorView;
use crate::modifiers::{
    clauses_of, cutoff_scan, decode, decode_all, drop_scan, reroll_scan, resolve, tokens_from,
    CutOffState, DropState, ModifierGroup, ReRollState, TokenView,
};
use crate::parse::{bag_of, base_of, d_numeric_at, dice_of, group_of, holds_d_numeric};
use crate::text::{
    all_of, digit, digits_value, lemma_run_end, lemma_run_end_is, letter, run_end, CharClass,
};
use vstd::prelude::*;

verus! {

/// The text of plain dice: the digits of the count, a `d`, the digits of
/// the size, and what follows them.
pub open spec fn dice_text(count: Seq<char>, size: Seq<char>, rest: Seq<char>) -> Seq<char> {
    count + seq!['d'] + size + rest
}

/// The count that the digits before the `d` stand for: one where there
/// are none.
pub open spec fn count_of(count: Seq<char>) -> nat {
    if count.len() == 0 {
        1
    } else {
        digits_value(count)
    }
}

/// A token as the grammar has it: letters, then digits, and some of each.
pub open spec fn token_formed(t: TokenView) -> bool {
    &&& t.code.len() > 0
    &&& t.number.len() > 0
    &&& all_of(t.code, CharClass::Letter)
    &&& all_of(t.number, CharClass::Digit)
}

/// Whether every token is as the grammar has it.
pub open spec fn tokens_formed(tokens: Seq<TokenView>) -> bool {
    forall|i: int| 0 <= i < tokens.len() ==> token_formed(#[trigger] tokens[i])
}

/// The text of modifiers: the code and the number of each token, one
/// after the other.
pub open spec fn modifier_text(tokens: Seq<TokenView>) -> Seq<char>
    decreases tokens.len(),
{
    if tokens.len() == 0 {
        Seq::empty()
    } else {
        tokens[0].code + tokens[0].number + modifier_text(tokens.drop_first())
    }
}

/// A token of the given letters and digits.
pub open spec fn token(first: char, second: char, number: Seq<char>) -> TokenView {
    TokenView { code: seq![first, second], number }
}

/// The text of a group of dice as the grammar has it: a count that may be
/// missing, a `d`, a size, modifiers, and a `!` if the dice explode.
pub open spec fn grammar_text(
    count: Seq<char>,
    size: Seq<char>,
    tokens: Seq<TokenView>,
    explosive: bool,
) -> Seq<char> {
    dice_text(count, size, modifier_text(tokens)) + if explosive {
        seq!['!']
    } else {
        Seq::empty()
    }
}

/// Whether a text is one that the grammar of dice groups admits.
pub open spec fn follows_grammar(g: Seq<char>) -> bool {
    exists|count: Seq<char>, size: Seq<char>, tokens: Seq<TokenView>, explosive: bool|
        #![trigger grammar_text(count, size, tokens, explosive)]
        {
            &&& g == grammar_text(count, size, tokens, explosive)
            &&& all_of(count, CharClass::Digit)
            &&& all_of(size, CharClass::Digit)
            &&& size.len() > 0
            &&& tokens_formed(tokens)
        }
}

/// The modifiers that the tokens decode into, settled on the plain dice
/// of the count and the size.
pub open spec fn settled(count: Seq<char>, size: Seq<char>, tokens: Seq<TokenView>) -> Result<
    DiceView,
    ParseErrorView,
> {
    match decode_all(tokens) {
        Err(e) => Err(e),
        Ok(mods) => resolve(
            mods,
            DiceView::plain(digits_value(size) as i64, count_of(count) as usize),
        ),
    }
}

/// What dice with modifiers stand for: the modifiers that the tokens
/// decode into, settled on the plain dice of the count and the size.
pub open spec fn dice_with(count: Seq<char>, size: Seq<char>, tokens: Seq<TokenView>) -> Result<
    DiceGroupView,
    ParseErrorView,
> {
    match settled(count, size, tokens) {
        Err(e) => Err(e),
        Ok(die) => Ok(DiceGroupView::Dice(die)),
    }
}

/// The bag of an expression that is one group: the group with the
/// operator `Add`, unless the group is refused or its range does not fit.
pub open spec fn bag_of_one(group: Result<DiceGroupView, ParseErrorView>) -> Result<
    Seq<DiceGroupView>,
    ParseErrorView,
> {
    match group {
        Err(e) => Err(e),
        Ok(g) => if range_fits(seq![g.with_op(DiceOp::Add)]) {
            Ok(seq![g.with_op(DiceOp::Add)])
        } else {
            Err(ParseErrorView::NumberTooLarge)
        },
    }
}

/// The base of a text that begins as plain dice do is the dice of that
/// count and size, and it ends where the digits of the size end.
pub proof fn lemma_base_of(count: Seq<char>, size: Seq<char>, rest: Seq<char>)
    requires
        all_of(count, CharClass::Digit),
        all_of(size, CharClass::Digit),
        size.len() > 0,
        rest.len() > 0 ==> !digit(rest[0]),
        digits_value(count) <= usize::MAX,
        digits_value(size) <= i64::MAX,
    ensures
        base_of(dice_text(count, size, rest)) == Ok::<(DiceView, int), ParseErrorView>(
            (
                DiceView::plain(digits_value(size) as i64, count_of(count) as usize),
                (count.len() + 1 + size.len()) as int,
            ),
        ),
{
    let t = dice_text(count, size, rest);
    let a = count.len() as int;
    let b = a + 1 + size.len();
    assert(t.len() == b + rest.len());
    assert forall|i: int| 0 <= i < a implies CharClass::Digit.holds(#[trigger] t[i]) by {
        assert(t[i] == count[i]);
    }
    assert(t[a] == 'd');
    lemma_run_end_is(t, 0, CharClass::Digit, a);
    assert forall|i: int| a + 1 <= i < b implies CharClass::Digit.holds(#[trigger] t[i]) by {
        assert(t[i] == size[i - a - 1]);
    }
    if b < t.len() {
        assert(t[b] == rest[0]);
    }
    lemma_run_end_is(t, a + 1, CharClass::Digit, b);
    assert(t.subrange(0, a) =~= count);
    assert(t.subrange(a + 1, b) =~= size);
}

/// No modifiers leave a group as it is, provided that it has no clause
/// yet.
pub proof fn lemma_no_modifiers(s: Seq<char>, die: DiceView)
    requires
        die.drop == DropView::Non,
        die.reroll == ReRoll::Never,
        die.cutoff == CutOff::Non,
    ensures
        clauses_of(s, s.len() as int, die) == Ok::<DiceView, ParseErrorView>(die),
{
    let none = Seq::<ModifierGroup>::empty();
    assert(decode_all(Seq::<TokenView>::empty()) == Ok::<Seq<ModifierGroup>, ParseErrorView>(none));
    assert(drop_scan(none, die.count) == Ok::<DropState, ParseErrorView>(
        DropState { lowest: None, highest: None },
    ));
    assert(reroll_scan(none, die.size) == Ok::<ReRollState, ParseErrorView>(
        ReRollState { count: None, threshold: None },
    ));
    assert(cutoff_scan(none, die.size) == Ok::<CutOffState, ParseErrorView>(
        CutOffState { minimum: None, maximum: None },
    ));
}

/// The text of modifiers holds letters and digits only, and begins with
/// a letter.
pub proof fn lemma_modifier_text(tokens: Seq<TokenView>)
    requires
        tokens_formed(tokens),
    ensures
        forall|i: int|
            0 <= i < modifier_text(tokens).len() ==> letter(#[trigger] modifier_text(tokens)[i])
                || digit(modifier_text(tokens)[i]),
        tokens.len() > 0 ==> modifier_text(tokens).len() > 0 && letter(modifier_text(tokens)[0]),
        tokens.len() == 0 ==> modifier_text(tokens).len() == 0,
    decreases tokens.len(),
{
    if tokens.len() > 0 {
        let first = tokens[0];
        let rest = tokens.drop_first();
        assert(token_formed(first));
        assert(tokens_formed(rest)) by {
            assert forall|i: int| 0 <= i < rest.len() implies token_formed(#[trigger] rest[i]) by {
                assert(rest[i] == tokens[i + 1]);
            }
        }
        lemma_modifier_text(rest);
        let m = modifier_text(tokens);
        let a = first.code.len() as int;
        let b = a + first.number.len();
        assert(m[0] == first.code[0]);
        assert forall|i: int| 0 <= i < m.len() implies letter(#[trigger] m[i]) || digit(m[i]) by {
            if i < a {
                assert(m[i] == first.code[i]);
            } else if i < b {
                assert(m[i] == first.number[i - a]);
            } else {
                assert(m[i] == modifier_text(rest)[i - b]);
            }
        }
    }
}

/// Reading the text of modifiers gives back the tokens that it was made
/// of, whatever stands before it.
pub proof fn lemma_tokens_of_text(before: Seq<char>, tokens: Seq<TokenView>)
    requires
        tokens_formed(tokens),
    ensures
        tokens_from(before + modifier_text(tokens), before.len() as int) == Ok::<
            Seq<TokenView>,
            ParseErrorView,
        >(tokens),
    decreases tokens.len(),
{
    let t = before + modifier_text(tokens);
    let from = before.len() as int;
    if tokens.len() == 0 {
        assert(tokens =~= Seq::<TokenView>::empty());
    } else {
        let first = tokens[0];
        let rest = tokens.drop_first();
        assert(token_formed(first));
        assert(tokens_formed(rest)) by {
            assert forall|i: int| 0 <= i < rest.len() implies token_formed(#[trigger] rest[i]) by {
                assert(rest[i] == tokens[i + 1]);
            }
        }
        lemma_modifier_text(rest);
        let mid = from + first.code.len();
        let end = mid + first.number.len();
        let further = before + first.code + first.number;
        assert(t =~= further + modifier_text(rest));
        assert(t.len() == end + modifier_text(rest).len());
        assert forall|i: int| from <= i < mid implies CharClass::Letter.holds(#[trigger] t[i]) by {
            assert(t[i] == first.code[i - from]);
        }
        assert(t[mid] == first.number[0]);
        lemma_run_end_is(t, from, CharClass::Letter, mid);
        assert forall|i: int| mid <= i < end implies CharClass::Digit.holds(#[trigger] t[i]) by {
            assert(t[i] == first.number[i - mid]);
        }
        if end < t.len() {
            assert(t[end] == modifier_text(rest)[0]);
        }
        lemma_run_end_is(t, mid, CharClass::Digit, end);
        assert(t.subrange(from, mid) =~= first.code);
        assert(t.subrange(mid, end) =~= first.number);
        lemma_tokens_of_text(further, rest);
        assert(seq![first] + rest =~= tokens);
    }
}

/// The tokens that are read from a text are as the grammar has them, and
/// written one after the other they are the text again.
pub proof fn lemma_text_of_tokens(s: Seq<char>, from: int)
    requires
        0 <= from <= s.len(),
        tokens_from(s, from) is Ok,
    ensures
        tokens_formed(tokens_from(s, from)->Ok_0),
        modifier_text(tokens_from(s, from)->Ok_0) == s.subrange(from, s.len() as int),
    decreases s.len() - from,
{
    let tokens = tokens_from(s, from)->Ok_0;
    if from >= s.len() {
        assert(s.subrange(from, s.len() as int) =~= Seq::<char>::empty());
    } else {
        lemma_run_end(s, from, CharClass::Letter);
        let mid = run_end(s, from, CharClass::Letter);
        lemma_run_end(s, mid, CharClass::Digit);
        let end = run_end(s, mid, CharClass::Digit);
        let first = TokenView { code: s.subrange(from, mid), number: s.subrange(mid, end) };
        let rest = tokens_from(s, end)->Ok_0;
        assert(tokens_from(s, end) is Ok);
        lemma_text_of_tokens(s, end);
        assert(tokens == seq![first] + rest);
        assert(tokens[0] == first);
        assert(tokens.drop_first() =~= rest);
        assert(token_formed(first));
        assert forall|i: int| 0 <= i < tokens.len() implies token_formed(#[trigger] tokens[i]) by {
            if i > 0 {
                assert(tokens[i] == rest[i - 1]);
            }
        }
        assert(first.code + first.number + s.subrange(end, s.len() as int) =~= s.subrange(
            from,
            s.len() as int,
        ));
    }
}

/// The text of dice with modifiers is read as dice with those modifiers.
pub proof fn lemma_dice_of_text(count: Seq<char>, size: Seq<char>, tokens: Seq<TokenView>)
    requires
        all_of(count, CharClass::Digit),
        all_of(size, CharClass::Digit),
        size.len() > 0,
        digits_value(count) <= usize::MAX,
        digits_value(size) <= i64::MAX,
        tokens_formed(tokens),
    ensures
        dice_of(dice_text(count, size, modifier_text(tokens))) == settled(count, size, tokens),
        holds_d_numeric(dice_text(count, size, modifier_text(tokens))),
        !dice_text(count, size, modifier_text(tokens)).contains('!'),
        !all_of(dice_text(count, size, modifier_text(tokens)), CharClass::Digit),
{
    let m = modifier_text(tokens);
    let t = dice_text(count, size, m);
    let a = count.len() as int;
    let b = a + 1 + size.len();
    let die = DiceView::plain(digits_value(size) as i64, count_of(count) as usize);
    lemma_modifier_text(tokens);
    lemma_base_of(count, size, m);
    assert(t[a] == 'd');
    assert(!all_of(t, CharClass::Digit));
    assert(t[a + 1] == size[0]);
    assert(d_numeric_at(t, a));
    assert forall|i: int| 0 <= i < t.len() implies t[i] != '!' by {
        if i < a {
            assert(t[i] == count[i]);
        } else if i == a {
        } else if i < b {
            assert(t[i] == size[i - a - 1]);
        } else {
            assert(t[i] == m[i - b]);
        }
    }
    lemma_tokens_of_text(count + seq!['d'] + size, tokens);
    assert(dice_of(t) == clauses_of(t, b, die));
}

/// Every text that the grammar of dice groups admits is read as the
/// grammar says: a count that may be missing, a `d`, a size, modifiers,
/// each a code of letters with a number, and a `!` for dice that explode.
pub proof fn lemma_grammar_is_read(
    count: Seq<char>,
    size: Seq<char>,
    tokens: Seq<TokenView>,
    explosive: bool,
)
    requires
        all_of(count, CharClass::Digit),
        all_of(size, CharClass::Digit),
        size.len() > 0,
        digits_value(count) <= usize::MAX,
        digits_value(size) <= i64::MAX,
        tokens_formed(tokens),
    ensures
        group_of(grammar_text(count, size, tokens, explosive)) == match settled(
            count,
            size,
            tokens,
        ) {
            Err(e) => Err::<DiceGroupView, ParseErrorView>(e),
            Ok(die) => Ok(DiceGroupView::Dice(DiceView { explosive, ..die })),
        },
{
    let t = dice_text(count, size, modifier_text(tokens));
    let g = grammar_text(count, size, tokens, explosive);
    lemma_dice_of_text(count, size, tokens);
    lemma_modifier_text(tokens);
    let i = choose|i: int| d_numeric_at(t, i);
    assert(t.len() >= 2);
    let j = choose|j: int| 0 <= j < t.len() && !CharClass::Digit.holds(t[j]);
    if explosive {
        assert(g.drop_last() =~= t);
        assert(g.last() == '!');
        assert(g[j] == t[j]);
        assert(g[i] == t[i] && g[i + 1] == t[i + 1]);
        assert(d_numeric_at(g, i));
    } else {
        assert(g =~= t);
        assert(t.last() == t[t.len() - 1]);
    }
}

/// Settling modifiers changes the clauses of a group and nothing else.
pub proof fn lemma_resolve_keeps(mods: Seq<ModifierGroup>, die: DiceView)
    ensures
        resolve(mods, die) matches Ok(settled) ==> settled.size == die.size && settled.count
            == die.count && settled.op == die.op && settled.explosive == die.explosive,
{
}

/// Dice that do not explode, with their modifiers, are read as the
/// grammar says.
pub proof fn lemma_dice_with_modifiers(count: Seq<char>, size: Seq<char>, tokens: Seq<TokenView>)
    requires
        all_of(count, CharClass::Digit),
        all_of(size, CharClass::Digit),
        size.len() > 0,
        digits_value(count) <= usize::MAX,
        digits_value(size) <= i64::MAX,
        tokens_formed(tokens),
    ensures
        group_of(dice_text(count, size, modifier_text(tokens))) == dice_with(count, size, tokens),
{
    let t = dice_text(count, size, modifier_text(tokens));
    lemma_grammar_is_read(count, size, tokens, false);
    assert(grammar_text(count, size, tokens, false) =~= t);
    let die = DiceView::plain(digits_value(size) as i64, count_of(count) as usize);
    match decode_all(tokens) {
        Err(e) => {},
        Ok(mods) => {
            lemma_resolve_keeps(mods, die);
        },
    }
}

/// The base that is read from a text is a run of digits, a `d`, and a
/// run of digits that is not empty; written one after the other they are
/// the text up to where the base ends.
pub proof fn lemma_text_of_base(body: Seq<char>)
    requires
        base_of(body) is Ok,
    ensures
        ({
            let a = run_end(body, 0, CharClass::Digit);
            let b = (base_of(body)->Ok_0).1;
            &&& 0 <= a
            &&& a + 1 < b <= body.len()
            &&& all_of(body.subrange(0, a), CharClass::Digit)
            &&& all_of(body.subrange(a + 1, b), CharClass::Digit)
            &&& body.subrange(0, b) == body.subrange(0, a) + seq!['d'] + body.subrange(a + 1, b)
        }),
{
    lemma_run_end(body, 0, CharClass::Digit);
    let a = run_end(body, 0, CharClass::Digit);
    assert(a < body.len() && body[a] == 'd');
    lemma_run_end(body, a + 1, CharClass::Digit);
    let b = run_end(body, a + 1, CharClass::Digit);
    assert((base_of(body)->Ok_0).1 == b);
    let count = body.subrange(0, a);
    let size = body.subrange(a + 1, b);
    assert forall|i: int| 0 <= i < count.len() implies CharClass::Digit.holds(
        #[trigger] count[i],
    ) by {
        assert(count[i] == body[i]);
    }
    assert forall|i: int| 0 <= i < size.len() implies CharClass::Digit.holds(
        #[trigger] size[i],
    ) by {
        assert(size[i] == body[a + 1 + i]);
    }
    assert(body.subrange(0, b) =~= count + seq!['d'] + size);
}

/// Nothing but what the grammar admits is read as a group of dice.
pub proof fn lemma_parsed_dice_follow_grammar(g: Seq<char>)
    requires
        group_of(g) matches Ok(DiceGroupView::Dice(_)),
    ensures
        follows_grammar(g),
{
    let explosive = g.last() == '!';
    let body = if explosive {
        g.drop_last()
    } else {
        g
    };
    assert(dice_of(body) is Ok && g.len() > 0) by {
        assert(!all_of(g, CharClass::Digit));
    }
    assert(base_of(body) is Ok);
    let a = run_end(body, 0, CharClass::Digit);
    let b = (base_of(body)->Ok_0).1;
    assert(tokens_from(body, b) is Ok);
    lemma_text_of_base(body);
    lemma_text_of_tokens(body, b);
    let count = body.subrange(0, a);
    let size = body.subrange(a + 1, b);
    let tokens = tokens_from(body, b)->Ok_0;
    if explosive {
        assert(g =~= body.push('!'));
    }
    lemma_grammar_witness(g, body, count, size, tokens, explosive, b);
}

/// A text that is put together as the grammar has it follows the grammar.
proof fn lemma_grammar_witness(
    g: Seq<char>,
    body: Seq<char>,
    count: Seq<char>,
    size: Seq<char>,
    tokens: Seq<TokenView>,
    explosive: bool,
    b: int,
)
    requires
        0 <= b <= body.len(),
        body.subrange(0, b) == count + seq!['d'] + size,
        body.subrange(b, body.len() as int) == modifier_text(tokens),
        g == if explosive {
            body.push('!')
        } else {
            body
        },
        all_of(count, CharClass::Digit),
        all_of(size, CharClass::Digit),
        size.len() > 0,
        tokens_formed(tokens),
    ensures
        follows_grammar(g),
{
    assert(body =~= body.subrange(0, b) + body.subrange(b, body.len() as int));
    assert(body =~= dice_text(count, size, modifier_text(tokens)));
    assert(g =~= grammar_text(count, size, tokens, explosive));
}

/// An expression without operators is one group.
pub proof fn lemma_one_group(s: Seq<char>)
    requires
        all_of(s, CharClass::Allowed),
        all_of(s, CharClass::Operand),
    ensures
        bag_of(s) == bag_of_one(group_of(s)),
{
    lemma_run_end_is(s, 0, CharClass::Allowed, s.len() as int);
    lemma_run_end_is(s, 0, CharClass::Operand, s.len() as int);
    assert(s.subrange(0, s.len() as int) =~= s);
}

/// The text of modifiers whose codes hold only characters that
/// expressions use holds only such characters.
pub proof fn lemma_modifier_text_allowed(tokens: Seq<TokenView>)
    requires
        tokens_formed(tokens),
        forall|i: int|
            0 <= i < tokens.len() ==> all_of((#[trigger] tokens[i]).code, CharClass::Allowed),
    ensures
        all_of(modifier_text(tokens), CharClass::Allowed),
    decreases tokens.len(),
{
    if tokens.len() > 0 {
        let first = tokens[0];
        let rest = tokens.drop_first();
        assert(token_formed(first));
        assert(all_of(first.code, CharClass::Allowed));
        assert(tokens_formed(rest) && forall|i: int|
            0 <= i < rest.len() ==> all_of((#[trigger] rest[i]).code, CharClass::Allowed)) by {
            assert forall|i: int| 0 <= i < rest.len() implies token_formed(#[trigger] rest[i])
                && all_of(rest[i].code, CharClass::Allowed) by {
                assert(rest[i] == tokens[i + 1]);
            }
        }
        lemma_modifier_text_allowed(rest);
        let m = modifier_text(tokens);
        let a = first.code.len() as int;
        let b = a + first.number.len();
        assert forall|i: int| 0 <= i < m.len() implies CharClass::Allowed.holds(
            #[trigger] m[i],
        ) by {
            if i < a {
                assert(m[i] == first.code[i]);
            } else if i < b {
                assert(m[i] == first.number[i - a]);
            } else {
                assert(m[i] == modifier_text(rest)[i - b]);
            }
        }
    }
}

/// The text of dice with modifiers whose codes are among the known ones
/// holds only characters that expressions use, and no operator.
pub proof fn lemma_dice_text_allowed(count: Seq<char>, size: Seq<char>, tokens: Seq<TokenView>)
    requires
        all_of(count, CharClass::Digit),
        all_of(size, CharClass::Digit),
        tokens_formed(tokens),
        forall|i: int|
            0 <= i < tokens.len() ==> all_of((#[trigger] tokens[i]).code, CharClass::Allowed),
    ensures
        all_of(dice_text(count, size, modifier_text(tokens)), CharClass::Allowed),
        all_of(dice_text(count, size, modifier_text(tokens)), CharClass::Operand),
{
    let m = modifier_text(tokens);
    let t = dice_text(count, size, m);
    let a = count.len() as int;
    let b = a + 1 + size.len();
    lemma_modifier_text(tokens);
    lemma_modifier_text_allowed(tokens);
    assert forall|i: int| 0 <= i < t.len() implies CharClass::Allowed.holds(#[trigger] t[i])
        && CharClass::Operand.holds(t[i]) by {
        if i < a {
            assert(t[i] == count[i]);
        } else if i == a {
            assert(t[i] == 'd');
        } else if i < b {
            assert(t[i] == size[i - a - 1]);
        } else {
            assert(t[i] == m[i - b]);
        }
    }
}

/// Two lower-case letters are a code of letters.
pub proof fn lemma_two_letters(first: char, second: char)
    requires
        letter(first),
        letter(second),
    ensures
        seq![first, second].len() == 2,
        all_of(seq![first, second], CharClass::Letter),
{
}

/// Two characters that expressions use are a code of such characters.
pub proof fn lemma_two_allowed(first: char, second: char)
    requires
        CharClass::Allowed.holds(first),
        CharClass::Allowed.holds(second),
    ensures
        all_of(seq![first, second], CharClass::Allowed),
{
}

/// The nine codes are apart from one another.
pub proof fn lemma_codes_differ()
    ensures
        forall|a: char, b: char, c: char, d: char|
            (#[trigger] seq![a, b]) == (#[trigger] seq![c, d]) ==> a == c && b == d,
{
    assert forall|a: char, b: char, c: char, d: char|
        (#[trigger] seq![a, b]) == (#[trigger] seq![c, d]) implies a == c && b == d by {
        assert(seq![a, b][0] == a && seq![a, b][1] == b);
        assert(seq![c, d][0] == c && seq![c, d][1] == d);
    }
}

/// Two tokens decode one after the other.
pub proof fn lemma_decode_two(tokens: Seq<TokenView>)
    requires
        tokens.len() == 2,
    ensures
        decode_all(tokens) == match decode(tokens[0]) {
            Err(e) => Err::<Seq<ModifierGroup>, ParseErrorView>(e),
            Ok(first) => match decode(tokens[1]) {
                Err(e) => Err(e),
                Ok(second) => Ok(seq![first].push(second)),
            },
        },
{
    reveal_with_fuel(decode_all, 3);
    let none = Seq::<TokenView>::empty();
    assert(tokens.drop_last().drop_last() =~= none);
    assert(decode_all(none) == Ok::<Seq<ModifierGroup>, ParseErrorView>(Seq::empty()));
    assert(tokens.drop_last().last() == tokens[0]);
    assert(tokens.last() == tokens[1]);
    match decode(tokens[0]) {
        Err(e) => {},
        Ok(first) => {
            assert(Seq::<ModifierGroup>::empty().push(first) =~= seq![first]);
        },
    }
}

} // verus!
