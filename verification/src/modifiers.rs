//! The modifiers that follow the base of a dice group: how their text is
//! cut into codes and numbers, what each code means, and how the decoded
//! modifiers settle into the drop, reroll and cutoff clause of the group.

use crate::distribution::{
    index_range, index_run, CutOff, Dice, DiceView, Drop, DropView, MinMax, ReRoll, ReRollType,
};
use crate::error::{ahead, ParseError, ParseErrorView};
use crate::text::{
    all_of, digits_value, lemma_run_end, number_of, put_chars, run_end, slice_of, take_run,
    CharClass,
};
use vstd::prelude::*;

verus! {

/// A decoded modifier: a two-letter code with its number.
#[derive(Debug, Clone, Copy, PartialEq, Eq, Structural)]
pub enum ModifierGroup {
    /// `dl`: discard this many of the lowest dice.
    DropLowest(usize),
    /// `kh`: keep this many of the highest dice.
    KeepHighest(usize),
    /// `dh`: discard this many of the highest dice.
    DropHighest(usize),
    /// `kl`: keep this many of the lowest dice.
    KeepLowest(usize),
    /// `rr`: roll again up to this many dice.
    ReRollCount(usize),
    /// `ab`: roll again the dice above this value.
    ReRollAbove(usize),
    /// `be`: roll again the dice below this value.
    ReRollBelow(usize),
    /// `mx`: no die counts for more than this.
    CutOffMaximum(usize),
    /// `mn`: no die counts for less than this.
    CutOffMinimum(usize),
}

/// The code of a modifier and the digits of its number.
#[derive(Debug, Clone, PartialEq, Eq)]
pub struct Token {
    pub code: Vec<char>,
    pub number: Vec<char>,
}

/// The mathematical value of a [`Token`].
pub struct TokenView {
    pub code: Seq<char>,
    pub number: Seq<char>,
}

impl View for Token {
    type V = TokenView;

    open spec fn view(&self) -> TokenView {
        TokenView { code: self.code@, number: self.number@ }
    }
}

/// The mathematical values of a sequence of tokens.
pub open spec fn token_views(tokens: Seq<Token>) -> Seq<TokenView> {
    Seq::new(tokens.len(), |i: int| tokens[i]@)
}

/// The tokens of the modifiers that `s` holds from `from` on: each is a
/// run of letters followed by a run of digits. Where a code is expected
/// and no letter stands, the text is refused as
/// `ModifierMustStartWithLetter`; where no digit follows the letters, as
/// `MalformedModifierSequence`.
pub open spec fn tokens_from(s: Seq<char>, from: int) -> Result<Seq<TokenView>, ParseErrorView>
    decreases s.len() - from,
{
    if from < 0 || from >= s.len() {
        Ok(Seq::empty())
    } else {
        let mid = run_end(s, from, CharClass::Letter);
        let end = run_end(s, mid, CharClass::Digit);
        if mid == from {
            Err(ParseErrorView::ModifierMustStartWithLetter)
        } else if end == mid {
            Err(ParseErrorView::MalformedModifierSequence)
        } else if from < mid < end <= s.len() {
            ahead(
                seq![TokenView { code: s.subrange(from, mid), number: s.subrange(mid, end) }],
                tokens_from(s, end),
            )
        } else {
            Ok(Seq::empty())
        }
    }
}

/// The modifier that a token stands for. A number above `usize::MAX` is
/// refused as `NumberTooLarge`; then letters that are no code, as
/// `UnknownModifier`.
pub open spec fn decode(t: TokenView) -> Result<ModifierGroup, ParseErrorView> {
    let n = digits_value(t.number);
    if n > usize::MAX {
        Err(ParseErrorView::NumberTooLarge)
    } else if t.code == seq!['d', 'l'] {
        Ok(ModifierGroup::DropLowest(n as usize))
    } else if t.code == seq!['k', 'h'] {
        Ok(ModifierGroup::KeepHighest(n as usize))
    } else if t.code == seq!['k', 'l'] {
        Ok(ModifierGroup::KeepLowest(n as usize))
    } else if t.code == seq!['d', 'h'] {
        Ok(ModifierGroup::DropHighest(n as usize))
    } else if t.code == seq!['r', 'r'] {
        Ok(ModifierGroup::ReRollCount(n as usize))
    } else if t.code == seq!['a', 'b'] {
        Ok(ModifierGroup::ReRollAbove(n as usize))
    } else if t.code == seq!['b', 'e'] {
        Ok(ModifierGroup::ReRollBelow(n as usize))
    } else if t.code == seq!['m', 'x'] {
        Ok(ModifierGroup::CutOffMaximum(n as usize))
    } else if t.code == seq!['m', 'n'] {
        Ok(ModifierGroup::CutOffMinimum(n as usize))
    } else {
        Err(ParseErrorView::UnknownModifier(t.code))
    }
}

/// The modifiers that the tokens stand for, or the error of the first
/// token that stands for none.
pub open spec fn decode_all(tokens: Seq<TokenView>) -> Result<Seq<ModifierGroup>, ParseErrorView>
    decreases tokens.len(),
{
    if tokens.len() == 0 {
        Ok(Seq::empty())
    } else {
        match decode_all(tokens.drop_last()) {
            Err(e) => Err(e),
            Ok(before) => match decode(tokens.last()) {
                Err(e) => Err(e),
                Ok(m) => Ok(before.push(m)),
            },
        }
    }
}

/// What the drop modifiers seen so far ask for: the number of lowest dice
/// to discard, and the number of highest dice to discard.
pub struct DropState {
    pub lowest: Option<usize>,
    pub highest: Option<usize>,
}

/// What the reroll modifiers seen so far ask for.
pub struct ReRollState {
    pub count: Option<usize>,
    /// The threshold, and whether dice above it are meant.
    pub threshold: Option<(bool, i64)>,
}

/// What the cutoff modifiers seen so far ask for.
pub struct CutOffState {
    pub minimum: Option<i64>,
    pub maximum: Option<i64>,
}

/// One more modifier for the drop clause of a group of `count` dice.
/// `dl` and `kh` speak of the lowest dice, `dh` and `kl` of the highest: a
/// second one for the same end is a `DuplicateDropClause`. The number of a
/// modifier must be below `count`, and what it leaves must be a die at
/// least, or it is an `ExcessiveDrop`. Other modifiers change nothing.
pub open spec fn drop_step(st: DropState, m: ModifierGroup, count: usize) -> Result<
    DropState,
    ParseErrorView,
> {
    match m {
        ModifierGroup::DropLowest(n) => if st.lowest is Some {
            Err(ParseErrorView::DuplicateDropClause)
        } else if count <= n {
            Err(ParseErrorView::ExcessiveDrop)
        } else {
            Ok(DropState { lowest: Some(n), ..st })
        },
        ModifierGroup::KeepHighest(n) => if st.lowest is Some {
            Err(ParseErrorView::DuplicateDropClause)
        } else if count <= n || n == 0 {
            Err(ParseErrorView::ExcessiveDrop)
        } else {
            Ok(DropState { lowest: Some((count - n) as usize), ..st })
        },
        ModifierGroup::DropHighest(n) => if st.highest is Some {
            Err(ParseErrorView::DuplicateDropClause)
        } else if count <= n {
            Err(ParseErrorView::ExcessiveDrop)
        } else {
            Ok(DropState { highest: Some(n), ..st })
        },
        ModifierGroup::KeepLowest(n) => if st.highest is Some {
            Err(ParseErrorView::DuplicateDropClause)
        } else if count <= n || n == 0 {
            Err(ParseErrorView::ExcessiveDrop)
        } else {
            Ok(DropState { highest: Some((count - n) as usize), ..st })
        },
        _ => Ok(st),
    }
}

/// The drop modifiers of `mods`, taken one after the other.
pub open spec fn drop_scan(mods: Seq<ModifierGroup>, count: usize) -> Result<
    DropState,
    ParseErrorView,
>
    decreases mods.len(),
{
    if mods.len() == 0 {
        Ok(DropState { lowest: None, highest: None })
    } else {
        match drop_scan(mods.drop_last(), count) {
            Err(e) => Err(e),
            Ok(st) => drop_step(st, mods.last(), count),
        }
    }
}

/// The drop clause that the modifiers settle into. With both ends named,
/// the dice between them are kept, by their positions in ascending order,
/// and the two numbers together must be below `count`.
pub open spec fn drop_clause(st: DropState, count: usize) -> Result<DropView, ParseErrorView> {
    match (st.lowest, st.highest) {
        (None, None) => Ok(DropView::Non),
        (Some(m), None) => Ok(DropView::Lowest(m)),
        (None, Some(n)) => Ok(DropView::Highest(n)),
        (Some(m), Some(n)) => if m + n >= count {
            Err(ParseErrorView::ExcessiveDrop)
        } else {
            Ok(DropView::Custom(index_run(m, (count - n) as usize)))
        },
    }
}

/// One more modifier for the reroll clause of dice of `size` sides. A
/// second count, or a second threshold, is a `DuplicateRerollClause`. A
/// threshold `x` for dice above it must have `1 <= x < size`, one for dice
/// below it `1 < x <= size`, or it is a `ThresholdOutOfRange`.
pub open spec fn reroll_step(st: ReRollState, m: ModifierGroup, size: i64) -> Result<
    ReRollState,
    ParseErrorView,
> {
    match m {
        ModifierGroup::ReRollCount(n) => if st.count is Some {
            Err(ParseErrorView::DuplicateRerollClause)
        } else {
            Ok(ReRollState { count: Some(n), ..st })
        },
        ModifierGroup::ReRollAbove(x) => if st.threshold is Some {
            Err(ParseErrorView::DuplicateRerollClause)
        } else if !(1 <= x < size) {
            Err(ParseErrorView::ThresholdOutOfRange)
        } else {
            Ok(ReRollState { threshold: Some((true, x as i64)), ..st })
        },
        ModifierGroup::ReRollBelow(x) => if st.threshold is Some {
            Err(ParseErrorView::DuplicateRerollClause)
        } else if !(1 < x <= size) {
            Err(ParseErrorView::ThresholdOutOfRange)
        } else {
            Ok(ReRollState { threshold: Some((false, x as i64)), ..st })
        },
        _ => Ok(st),
    }
}

/// The reroll modifiers of `mods`, taken one after the other.
pub open spec fn reroll_scan(mods: Seq<ModifierGroup>, size: i64) -> Result<
    ReRollState,
    ParseErrorView,
>
    decreases mods.len(),
{
    if mods.len() == 0 {
        Ok(ReRollState { count: None, threshold: None })
    } else {
        match reroll_scan(mods.drop_last(), size) {
            Err(e) => Err(e),
            Ok(st) => reroll_step(st, mods.last(), size),
        }
    }
}

/// The reroll clause that the modifiers settle into. A count without a
/// threshold, or a threshold without a count, is an
/// `IncompleteRerollClause`.
pub open spec fn reroll_clause(st: ReRollState) -> Result<ReRoll, ParseErrorView> {
    match (st.count, st.threshold) {
        (None, None) => Ok(ReRoll::Never),
        (Some(n), Some((above, x))) => if above {
            Ok(ReRoll::IfAbove(ReRollType { count: n, ex_threshold: x }))
        } else {
            Ok(ReRoll::IfBelow(ReRollType { count: n, ex_threshold: x }))
        },
        _ => Err(ParseErrorView::IncompleteRerollClause),
    }
}

/// One more modifier for the cutoff clause of dice of `size` sides. A
/// second maximum, or a second minimum, is a `DuplicateCutoffClause`. A
/// maximum `x` must have `1 <= x < size`, a minimum `1 < x <= size`, or it
/// is an `InvalidCutoffBound`.
pub open spec fn cutoff_step(st: CutOffState, m: ModifierGroup, size: i64) -> Result<
    CutOffState,
    ParseErrorView,
> {
    match m {
        ModifierGroup::CutOffMaximum(x) => if st.maximum is Some {
            Err(ParseErrorView::DuplicateCutoffClause)
        } else if !(1 <= x < size) {
            Err(ParseErrorView::InvalidCutoffBound)
        } else {
            Ok(CutOffState { maximum: Some(x as i64), ..st })
        },
        ModifierGroup::CutOffMinimum(x) => if st.minimum is Some {
            Err(ParseErrorView::DuplicateCutoffClause)
        } else if !(1 < x <= size) {
            Err(ParseErrorView::InvalidCutoffBound)
        } else {
            Ok(CutOffState { minimum: Some(x as i64), ..st })
        },
        _ => Ok(st),
    }
}

/// The cutoff modifiers of `mods`, taken one after the other.
pub open spec fn cutoff_scan(mods: Seq<ModifierGroup>, size: i64) -> Result<
    CutOffState,
    ParseErrorView,
>
    decreases mods.len(),
{
    if mods.len() == 0 {
        Ok(CutOffState { minimum: None, maximum: None })
    } else {
        match cutoff_scan(mods.drop_last(), size) {
            Err(e) => Err(e),
            Ok(st) => cutoff_step(st, mods.last(), size),
        }
    }
}

/// The cutoff clause that the modifiers settle into. A minimum above the
/// maximum is an `InvertedCutoffRange`.
pub open spec fn cutoff_clause(st: CutOffState) -> Result<CutOff, ParseErrorView> {
    match (st.minimum, st.maximum) {
        (None, None) => Ok(CutOff::Non),
        (Some(x), None) => Ok(CutOff::Minimum(x)),
        (None, Some(y)) => Ok(CutOff::Maximum(y)),
        (Some(x), Some(y)) => if x > y {
            Err(ParseErrorView::InvertedCutoffRange)
        } else {
            Ok(CutOff::Both(MinMax([x, y])))
        },
    }
}

/// The group `die` with the clauses that `mods` settle into. The drop
/// clause is settled first, then the reroll clause, then the cutoff
/// clause, and the first error is the result.
pub open spec fn resolve(mods: Seq<ModifierGroup>, die: DiceView) -> Result<
    DiceView,
    ParseErrorView,
> {
    match drop_scan(mods, die.count) {
        Err(e) => Err(e),
        Ok(ds) => match drop_clause(ds, die.count) {
            Err(e) => Err(e),
            Ok(drop) => match reroll_scan(mods, die.size) {
                Err(e) => Err(e),
                Ok(rs) => match reroll_clause(rs) {
                    Err(e) => Err(e),
                    Ok(reroll) => match cutoff_scan(mods, die.size) {
                        Err(e) => Err(e),
                        Ok(cs) => match cutoff_clause(cs) {
                            Err(e) => Err(e),
                            Ok(cutoff) => Ok(DiceView { drop, reroll, cutoff, ..die }),
                        },
                    },
                },
            },
        },
    }
}


/// Whether `x` is below `size`.
fn below(x: usize, size: i64) -> (r: bool)
    ensures
        r == (x < size),
{
    size > 0 && (x as u64) < (size as u64)
}

/// Whether `x` is `size` at most.
fn at_most(x: usize, size: i64) -> (r: bool)
    ensures
        r == (x <= size),
{
    size >= 0 && (x as u64) <= (size as u64)
}

/// Whether the letters are the code made of `a` and `b`.
fn is_code(cond: &Vec<char>, a: char, b: char) -> (r: bool)
    ensures
        r == (cond@ == seq![a, b]),
{
    let r = cond.len() == 2 && cond[0] == a && cond[1] == b;
    proof {
        let code = seq![a, b];
        assert(code.len() == 2 && code[0] == a && code[1] == b);
        if r {
            assert(cond@ =~= code);
        }
    }
    r
}

/// The tokens of the modifiers that `chars` holds from `from` on.
pub fn split_tokens(chars: &Vec<char>, from: usize) -> (r: Result<Vec<Token>, ParseError>)
    requires
        from <= chars.len(),
    ensures
        match tokens_from(chars@, from as int) {
            Ok(ts) => r matches Ok(found) && token_views(found@) == ts,
            Err(e) => r matches Err(err) && err@ == e,
        },
        r matches Ok(found) ==> forall|i: int|
            0 <= i < found.len() ==> all_of((#[trigger] found[i]).number@, CharClass::Digit),
{
    let mut found: Vec<Token> = Vec::new();
    let mut pos: usize = from;
    assert(token_views(found@) =~= Seq::<TokenView>::empty());
    while pos < chars.len()
        invariant
            from <= pos <= chars.len(),
            tokens_from(chars@, from as int) == ahead(
                token_views(found@),
                tokens_from(chars@, pos as int),
            ),
            forall|i: int|
                0 <= i < found.len() ==> all_of((#[trigger] found[i]).number@, CharClass::Digit),
        decreases chars.len() - pos,
    {
        let mid = take_run(chars, pos, CharClass::Letter);
        if mid == pos {
            return Err(ParseError::ModifierMustStartWithLetter);
        }
        let end = take_run(chars, mid, CharClass::Digit);
        if end == mid {
            return Err(ParseError::MalformedModifierSequence);
        }
        let code = slice_of(chars, pos, mid);
        let number = slice_of(chars, mid, end);
        proof {
            lemma_run_end(chars@, mid as int, CharClass::Digit);
            let t = TokenView { code: code@, number: number@ };
            let before = token_views(found@);
            let rest = tokens_from(chars@, end as int);
            assert(tokens_from(chars@, pos as int) == ahead(seq![t], rest));
            assert(token_views(found@.push(Token { code, number })) =~= before.push(t));
            assert(before + seq![t] =~= before.push(t));
            match rest {
                Ok(more) => {
                    assert(before + (seq![t] + more) =~= before.push(t) + more);
                },
                Err(_) => {},
            }
        }
        found.push(Token { code, number });
        pos = end;
    }
    proof {
        assert(token_views(found@) + Seq::<TokenView>::empty() =~= token_views(found@));
    }
    Ok(found)
}

/// The modifier that the letters `cond` and the digits `num` stand for.
pub fn make_group(num: &Vec<char>, cond: &Vec<char>) -> (r: Result<ModifierGroup, ParseError>)
    requires
        all_of(num@, CharClass::Digit),
    ensures
        match decode(TokenView { code: cond@, number: num@ }) {
            Ok(m) => r == Ok::<ModifierGroup, ParseError>(m),
            Err(e) => r matches Err(err) && err@ == e,
        },
{
    let n: usize = match number_of(num, usize::MAX as u64) {
        Some(n) => n as usize,
        None => {
            return Err(ParseError::NumberTooLarge);
        },
    };
    if is_code(cond, 'd', 'l') {
        Ok(ModifierGroup::DropLowest(n))
    } else if is_code(cond, 'k', 'h') {
        Ok(ModifierGroup::KeepHighest(n))
    } else if is_code(cond, 'k', 'l') {
        Ok(ModifierGroup::KeepLowest(n))
    } else if is_code(cond, 'd', 'h') {
        Ok(ModifierGroup::DropHighest(n))
    } else if is_code(cond, 'r', 'r') {
        Ok(ModifierGroup::ReRollCount(n))
    } else if is_code(cond, 'a', 'b') {
        Ok(ModifierGroup::ReRollAbove(n))
    } else if is_code(cond, 'b', 'e') {
        Ok(ModifierGroup::ReRollBelow(n))
    } else if is_code(cond, 'm', 'x') {
        Ok(ModifierGroup::CutOffMaximum(n))
    } else if is_code(cond, 'm', 'n') {
        Ok(ModifierGroup::CutOffMinimum(n))
    } else {
        let mut code = String::new();
        put_chars(&mut code, cond);
        assert(code@ =~= cond@);
        Err(ParseError::UnknownModifier(code))
    }
}

/// The modifiers that the tokens stand for.
pub fn decode_tokens(tokens: &Vec<Token>) -> (r: Result<Vec<ModifierGroup>, ParseError>)
    requires
        forall|i: int|
            0 <= i < tokens.len() ==> all_of((#[trigger] tokens[i]).number@, CharClass::Digit),
    ensures
        match decode_all(token_views(tokens@)) {
            Ok(ms) => r matches Ok(found) && found@ == ms,
            Err(e) => r matches Err(err) && err@ == e,
        },
{
    let ghost views = token_views(tokens@);
    let mut groups: Vec<ModifierGroup> = Vec::new();
    let mut i: usize = 0;
    assert(views.take(0) =~= Seq::<TokenView>::empty());
    while i < tokens.len()
        invariant
            i <= tokens.len(),
            views == token_views(tokens@),
            forall|k: int|
                0 <= k < tokens.len() ==> all_of(
                    (#[trigger] tokens[k]).number@,
                    CharClass::Digit,
                ),
            decode_all(views.take(i as int)) == Ok::<Seq<ModifierGroup>, ParseErrorView>(groups@),
        decreases tokens.len() - i,
    {
        proof {
            assert(views.take(i + 1).drop_last() =~= views.take(i as int));
            assert(views.take(i + 1).last() == tokens[i as int]@);
        }
        let ghost step = views.take(i + 1);
        match make_group(&tokens[i].number, &tokens[i].code) {
            Ok(m) => {
                groups.push(m);
            },
            Err(e) => {
                proof {
                    lemma_decode_error_stays(views, i + 1);
                }
                return Err(e);
            },
        }
        i = i + 1;
    }
    assert(views.take(tokens.len() as int) =~= views);
    Ok(groups)
}

/// Once a leading part of the tokens is refused, the whole is refused
/// with the same error.
proof fn lemma_decode_error_stays(tokens: Seq<TokenView>, k: int)
    requires
        0 <= k <= tokens.len(),
        decode_all(tokens.take(k)) is Err,
    ensures
        decode_all(tokens) == decode_all(tokens.take(k)),
    decreases tokens.len(),
{
    if k == tokens.len() {
        assert(tokens.take(k) =~= tokens);
    } else {
        assert(tokens.drop_last().take(k) =~= tokens.take(k));
        lemma_decode_error_stays(tokens.drop_last(), k);
    }
}

/// Once the drop modifiers of a leading part are refused, so are those of
/// the whole, with the same error.
proof fn lemma_drop_error_stays(mods: Seq<ModifierGroup>, count: usize, k: int)
    requires
        0 <= k <= mods.len(),
        drop_scan(mods.take(k), count) is Err,
    ensures
        drop_scan(mods, count) == drop_scan(mods.take(k), count),
    decreases mods.len(),
{
    if k == mods.len() {
        assert(mods.take(k) =~= mods);
    } else {
        assert(mods.drop_last().take(k) =~= mods.take(k));
        lemma_drop_error_stays(mods.drop_last(), count, k);
    }
}

/// Once the reroll modifiers of a leading part are refused, so are those
/// of the whole, with the same error.
proof fn lemma_reroll_error_stays(mods: Seq<ModifierGroup>, size: i64, k: int)
    requires
        0 <= k <= mods.len(),
        reroll_scan(mods.take(k), size) is Err,
    ensures
        reroll_scan(mods, size) == reroll_scan(mods.take(k), size),
    decreases mods.len(),
{
    if k == mods.len() {
        assert(mods.take(k) =~= mods);
    } else {
        assert(mods.drop_last().take(k) =~= mods.take(k));
        lemma_reroll_error_stays(mods.drop_last(), size, k);
    }
}

/// Once the cutoff modifiers of a leading part are refused, so are those
/// of the whole, with the same error.
proof fn lemma_cutoff_error_stays(mods: Seq<ModifierGroup>, size: i64, k: int)
    requires
        0 <= k <= mods.len(),
        cutoff_scan(mods.take(k), size) is Err,
    ensures
        cutoff_scan(mods, size) == cutoff_scan(mods.take(k), size),
    decreases mods.len(),
{
    if k == mods.len() {
        assert(mods.take(k) =~= mods);
    } else {
        assert(mods.drop_last().take(k) =~= mods.take(k));
        lemma_cutoff_error_stays(mods.drop_last(), size, k);
    }
}

/// The drop clause that the modifiers ask of a group of `count` dice.
pub fn settle_drop(mods: &Vec<ModifierGroup>, count: usize) -> (r: Result<Drop, ParseError>)
    ensures
        match drop_scan(mods@, count) {
            Err(e) => r matches Err(err) && err@ == e,
            Ok(st) => match drop_clause(st, count) {
                Err(e) => r matches Err(err) && err@ == e,
                Ok(clause) => r matches Ok(found) && found@ == clause,
            },
        },
{
    let mut lowest: Option<usize> = None;
    let mut highest: Option<usize> = None;
    let mut i: usize = 0;
    assert(mods@.take(0) =~= Seq::<ModifierGroup>::empty());
    while i < mods.len()
        invariant
            i <= mods.len(),
            drop_scan(mods@.take(i as int), count) == Ok::<DropState, ParseErrorView>(
                DropState { lowest, highest },
            ),
        decreases mods.len() - i,
    {
        proof {
            assert(mods@.take(i + 1).drop_last() =~= mods@.take(i as int));
            assert(mods@.take(i + 1).last() == mods@[i as int]);
        }
        let ghost before = DropState { lowest, highest };
        let mut failure: Option<ParseError> = None;
        match mods[i] {
            ModifierGroup::DropLowest(n) => {
                if lowest.is_some() {
                    failure = Some(ParseError::DuplicateDropClause);
                } else if count <= n {
                    failure = Some(ParseError::ExcessiveDrop);
                } else {
                    lowest = Some(n);
                }
            },
            ModifierGroup::KeepHighest(n) => {
                if lowest.is_some() {
                    failure = Some(ParseError::DuplicateDropClause);
                } else if count <= n || n == 0 {
                    failure = Some(ParseError::ExcessiveDrop);
                } else {
                    lowest = Some(count - n);
                }
            },
            ModifierGroup::DropHighest(n) => {
                if highest.is_some() {
                    failure = Some(ParseError::DuplicateDropClause);
                } else if count <= n {
                    failure = Some(ParseError::ExcessiveDrop);
                } else {
                    highest = Some(n);
                }
            },
            ModifierGroup::KeepLowest(n) => {
                if highest.is_some() {
                    failure = Some(ParseError::DuplicateDropClause);
                } else if count <= n || n == 0 {
                    failure = Some(ParseError::ExcessiveDrop);
                } else {
                    highest = Some(count - n);
                }
            },
            _ => {},
        }
        match failure {
            Some(e) => {
                proof {
                    assert(drop_step(before, mods@[i as int], count) == Err::<
                        DropState,
                        ParseErrorView,
                    >(e@));
                    lemma_drop_error_stays(mods@, count, i + 1);
                }
                return Err(e);
            },
            None => {},
        }
        i = i + 1;
    }
    assert(mods@.take(mods.len() as int) =~= mods@);
    match (lowest, highest) {
        (None, None) => Ok(Drop::non()),
        (Some(m), None) => Ok(Drop::lowest(m)),
        (None, Some(n)) => Ok(Drop::highest(n)),
        (Some(m), Some(n)) => {
            if n >= count || m >= count - n {
                return Err(ParseError::ExcessiveDrop);
            }
            Ok(Drop::custom(index_range(m, count - n)))
        },
    }
}

/// The reroll clause that the modifiers ask of dice of `size` sides.
pub fn settle_reroll(mods: &Vec<ModifierGroup>, size: i64) -> (r: Result<ReRoll, ParseError>)
    ensures
        match reroll_scan(mods@, size) {
            Err(e) => r matches Err(err) && err@ == e,
            Ok(st) => match reroll_clause(st) {
                Err(e) => r matches Err(err) && err@ == e,
                Ok(clause) => r == Ok::<ReRoll, ParseError>(clause),
            },
        },
{
    let mut count: Option<usize> = None;
    let mut threshold: Option<(bool, i64)> = None;
    let mut i: usize = 0;
    assert(mods@.take(0) =~= Seq::<ModifierGroup>::empty());
    while i < mods.len()
        invariant
            i <= mods.len(),
            reroll_scan(mods@.take(i as int), size) == Ok::<ReRollState, ParseErrorView>(
                ReRollState { count, threshold },
            ),
        decreases mods.len() - i,
    {
        proof {
            assert(mods@.take(i + 1).drop_last() =~= mods@.take(i as int));
            assert(mods@.take(i + 1).last() == mods@[i as int]);
        }
        let ghost before = ReRollState { count, threshold };
        let mut failure: Option<ParseError> = None;
        match mods[i] {
            ModifierGroup::ReRollCount(n) => {
                if count.is_some() {
                    failure = Some(ParseError::DuplicateRerollClause);
                } else {
                    count = Some(n);
                }
            },
            ModifierGroup::ReRollAbove(x) => {
                if threshold.is_some() {
                    failure = Some(ParseError::DuplicateRerollClause);
                } else if !(1 <= x && below(x, size)) {
                    failure = Some(ParseError::ThresholdOutOfRange);
                } else {
                    threshold = Some((true, x as i64));
                }
            },
            ModifierGroup::ReRollBelow(x) => {
                if threshold.is_some() {
                    failure = Some(ParseError::DuplicateRerollClause);
                } else if !(1 < x && at_most(x, size)) {
                    failure = Some(ParseError::ThresholdOutOfRange);
                } else {
                    threshold = Some((false, x as i64));
                }
            },
            _ => {},
        }
        match failure {
            Some(e) => {
                proof {
                    assert(reroll_step(before, mods@[i as int], size) == Err::<
                        ReRollState,
                        ParseErrorView,
                    >(e@));
                    lemma_reroll_error_stays(mods@, size, i + 1);
                }
                return Err(e);
            },
            None => {},
        }
        i = i + 1;
    }
    assert(mods@.take(mods.len() as int) =~= mods@);
    match (count, threshold) {
        (None, None) => Ok(ReRoll::new()),
        (Some(n), Some((above, x))) => if above {
            Ok(ReRoll::if_above(x, n))
        } else {
            Ok(ReRoll::if_below(x, n))
        },
        _ => Err(ParseError::IncompleteRerollClause),
    }
}

/// The cutoff clause that the modifiers ask of dice of `size` sides.
pub fn settle_cutoff(mods: &Vec<ModifierGroup>, size: i64) -> (r: Result<CutOff, ParseError>)
    ensures
        match cutoff_scan(mods@, size) {
            Err(e) => r matches Err(err) && err@ == e,
            Ok(st) => match cutoff_clause(st) {
                Err(e) => r matches Err(err) && err@ == e,
                Ok(clause) => r == Ok::<CutOff, ParseError>(clause),
            },
        },
{
    let mut minimum: Option<i64> = None;
    let mut maximum: Option<i64> = None;
    let mut i: usize = 0;
    assert(mods@.take(0) =~= Seq::<ModifierGroup>::empty());
    while i < mods.len()
        invariant
            i <= mods.len(),
            cutoff_scan(mods@.take(i as int), size) == Ok::<CutOffState, ParseErrorView>(
                CutOffState { minimum, maximum },
            ),
        decreases mods.len() - i,
    {
        proof {
            assert(mods@.take(i + 1).drop_last() =~= mods@.take(i as int));
            assert(mods@.take(i + 1).last() == mods@[i as int]);
        }
        let ghost before = CutOffState { minimum, maximum };
        let mut failure: Option<ParseError> = None;
        match mods[i] {
            ModifierGroup::CutOffMaximum(x) => {
                if maximum.is_some() {
                    failure = Some(ParseError::DuplicateCutoffClause);
                } else if !(1 <= x && below(x, size)) {
                    failure = Some(ParseError::InvalidCutoffBound);
                } else {
                    maximum = Some(x as i64);
                }
            },
            ModifierGroup::CutOffMinimum(x) => {
                if minimum.is_some() {
                    failure = Some(ParseError::DuplicateCutoffClause);
                } else if !(1 < x && at_most(x, size)) {
                    failure = Some(ParseError::InvalidCutoffBound);
                } else {
                    minimum = Some(x as i64);
                }
            },
            _ => {},
        }
        match failure {
            Some(e) => {
                proof {
                    assert(cutoff_step(before, mods@[i as int], size) == Err::<
                        CutOffState,
                        ParseErrorView,
                    >(e@));
                    lemma_cutoff_error_stays(mods@, size, i + 1);
                }
                return Err(e);
            },
            None => {},
        }
        i = i + 1;
    }
    assert(mods@.take(mods.len() as int) =~= mods@);
    match (minimum, maximum) {
        (None, None) => Ok(CutOff::Non),
        (Some(x), None) => Ok(CutOff::Minimum(x)),
        (None, Some(y)) => Ok(CutOff::Maximum(y)),
        (Some(x), Some(y)) => {
            if x > y {
                Err(ParseError::InvertedCutoffRange)
            } else {
                Ok(CutOff::Both(MinMax([x, y])))
            }
        },
    }
}

/// Gives `die` the clauses that `mods` settle into. A die that is refused
/// is left as it was.
pub fn fill_dice(mods: &Vec<ModifierGroup>, die: &mut Dice) -> (r: Result<(), ParseError>)
    ensures
        match resolve(mods@, old(die)@) {
            Ok(settled) => r is Ok && final(die)@ == settled,
            Err(e) => r matches Err(err) && err@ == e && final(die)@ == old(die)@,
        },
{
    let drop = match settle_drop(mods, die.count) {
        Ok(clause) => clause,
        Err(e) => {
            return Err(e);
        },
    };
    let reroll = match settle_reroll(mods, die.size) {
        Ok(clause) => clause,
        Err(e) => {
            return Err(e);
        },
    };
    let cutoff = match settle_cutoff(mods, die.size) {
        Ok(clause) => clause,
        Err(e) => {
            return Err(e);
        },
    };
    die.add_drop(drop);
    die.reroll = reroll;
    die.add_checked_cutoff(cutoff);
    Ok(())
}

/// Reads the modifiers that `chars` holds from `from` on and gives `die`
/// the clauses that they settle into. A die that is refused is left as it
/// was.
pub fn parse_conditional_clauses(chars: &Vec<char>, from: usize, base_dice: &mut Dice) -> (r:
    Result<(), ParseError>)
    requires
        from <= chars.len(),
    ensures
        match clauses_of(chars@, from as int, old(base_dice)@) {
            Ok(settled) => r is Ok && final(base_dice)@ == settled,
            Err(e) => r matches Err(err) && err@ == e && final(base_dice)@ == old(base_dice)@,
        },
{
    let tokens = match split_tokens(chars, from) {
        Ok(tokens) => tokens,
        Err(e) => {
            return Err(e);
        },
    };
    let groups = match decode_tokens(&tokens) {
        Ok(groups) => groups,
        Err(e) => {
            return Err(e);
        },
    };
    fill_dice(&groups, base_dice)
}

/// The group `die` with the clauses of the modifiers that `s` holds from
/// `from` on: the text is cut into tokens, the tokens are decoded, and the
/// modifiers are settled; the first of these to fail gives the error.
pub open spec fn clauses_of(s: Seq<char>, from: int, die: DiceView) -> Result<
    DiceView,
    ParseErrorView,
> {
    match tokens_from(s, from) {
        Err(e) => Err(e),
        Ok(tokens) => match decode_all(tokens) {
            Err(e) => Err(e),
            Ok(mods) => resolve(mods, die),
        },
    }
}

} // verus!
