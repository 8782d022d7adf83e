//! What can be wrong with a dice expression.

use crate::text::{put, put_char};
use vstd::prelude::*;

verus! {

/// Why an expression was refused. Every error arises while parsing: a bag
/// that was parsed is never refused later.
#[derive(Debug, Clone, PartialEq, Eq)]
pub enum ParseError {
    /// The input holds a character that no expression uses.
    InvalidCharacter(char),
    /// Nothing stands before, between or after the operators.
    EmptyOrMissingGroup,
    /// A group is not a number and holds no `d` followed by a digit, or
    /// does not begin as dice do.
    NotDiceOrBonus,
    /// A `!` stands elsewhere than at the end of its group.
    MisplacedExplosiveMarker,
    /// A modifier is expected and what stands there is no letter.
    ModifierMustStartWithLetter,
    /// Modifiers follow a plain number.
    BonusCannotHaveModifiers,
    /// The code of a modifier is not followed by a number.
    MalformedModifierSequence,
    /// The letters of a modifier are none of the known codes.
    UnknownModifier(String),
    /// A number of the input, or the range of the bag, is more than the
    /// machine's integers hold.
    NumberTooLarge,
    /// Two clauses drop the lowest dice, or two the highest.
    DuplicateDropClause,
    /// A clause would leave no die.
    ExcessiveDrop,
    /// Kept for completeness; no input gives it.
    ImpossibleDropCombination,
    /// A reroll count stands without a threshold, or a threshold without a
    /// count.
    IncompleteRerollClause,
    /// Two reroll counts, or two reroll thresholds.
    DuplicateRerollClause,
    /// A reroll threshold that no die, or every die, would meet.
    ThresholdOutOfRange,
    /// Two minimum cutoffs, or two maximum cutoffs.
    DuplicateCutoffClause,
    /// A cutoff outside the faces of the die, or one that changes nothing.
    InvalidCutoffBound,
    /// The minimum cutoff is above the maximum cutoff.
    InvertedCutoffRange,
}

/// The mathematical value of a [`ParseError`].
pub enum ParseErrorView {
    InvalidCharacter(char),
    EmptyOrMissingGroup,
    NotDiceOrBonus,
    MisplacedExplosiveMarker,
    ModifierMustStartWithLetter,
    BonusCannotHaveModifiers,
    MalformedModifierSequence,
    UnknownModifier(Seq<char>),
    NumberTooLarge,
    DuplicateDropClause,
    ExcessiveDrop,
    ImpossibleDropCombination,
    IncompleteRerollClause,
    DuplicateRerollClause,
    ThresholdOutOfRange,
    DuplicateCutoffClause,
    InvalidCutoffBound,
    InvertedCutoffRange,
}

impl View for ParseError {
    type V = ParseErrorView;

    open spec fn view(&self) -> ParseErrorView {
        match *self {
            ParseError::InvalidCharacter(c) => ParseErrorView::InvalidCharacter(c),
            ParseError::EmptyOrMissingGroup => ParseErrorView::EmptyOrMissingGroup,
            ParseError::NotDiceOrBonus => ParseErrorView::NotDiceOrBonus,
            ParseError::MisplacedExplosiveMarker => ParseErrorView::MisplacedExplosiveMarker,
            ParseError::ModifierMustStartWithLetter => ParseErrorView::ModifierMustStartWithLetter,
            ParseError::BonusCannotHaveModifiers => ParseErrorView::BonusCannotHaveModifiers,
            ParseError::MalformedModifierSequence => ParseErrorView::MalformedModifierSequence,
            ParseError::UnknownModifier(code) => ParseErrorView::UnknownModifier(code@),
            ParseError::NumberTooLarge => ParseErrorView::NumberTooLarge,
            ParseError::DuplicateDropClause => ParseErrorView::DuplicateDropClause,
            ParseError::ExcessiveDrop => ParseErrorView::ExcessiveDrop,
            ParseError::ImpossibleDropCombination => ParseErrorView::ImpossibleDropCombination,
            ParseError::IncompleteRerollClause => ParseErrorView::IncompleteRerollClause,
            ParseError::DuplicateRerollClause => ParseErrorView::DuplicateRerollClause,
            ParseError::ThresholdOutOfRange => ParseErrorView::ThresholdOutOfRange,
            ParseError::DuplicateCutoffClause => ParseErrorView::DuplicateCutoffClause,
            ParseError::InvalidCutoffBound => ParseErrorView::InvalidCutoffBound,
            ParseError::InvertedCutoffRange => ParseErrorView::InvertedCutoffRange,
        }
    }
}

/// A result whose sequence has `done` put before it; an error stays.
pub open spec fn ahead<T>(done: Seq<T>, rest: Result<Seq<T>, ParseErrorView>) -> Result<
    Seq<T>,
    ParseErrorView,
> {
    match rest {
        Ok(more) => Ok(done + more),
        Err(e) => Err(e),
    }
}


impl ParseErrorView {
    /// The error in words.
    pub open spec fn text(self) -> Seq<char> {
        match self {
            ParseErrorView::InvalidCharacter(c) => "Input contained invalid character ("@.push(c)
                + ")."@,
            ParseErrorView::EmptyOrMissingGroup => "Input contains an empty dice group."@,
            ParseErrorView::NotDiceOrBonus => "A dice group is neither dice nor bonus."@,
            ParseErrorView::MisplacedExplosiveMarker =>
                "An exclamation mark must end its dice group."@,
            ParseErrorView::ModifierMustStartWithLetter => "Modifiers must start with a letter."@,
            ParseErrorView::BonusCannotHaveModifiers => "A bonus must not have modifiers."@,
            ParseErrorView::MalformedModifierSequence => "A modifier has no number."@,
            ParseErrorView::UnknownModifier(code) => "("@ + code + ") is not a valid modifier."@,
            ParseErrorView::NumberTooLarge => "A number is too large."@,
            ParseErrorView::DuplicateDropClause => "Multiple drop clauses for the same end found."@,
            ParseErrorView::ExcessiveDrop => "Dropping all the dice of a group or more."@,
            ParseErrorView::ImpossibleDropCombination => "Impossible drop combination."@,
            ParseErrorView::IncompleteRerollClause => "Incomplete reroll clause."@,
            ParseErrorView::DuplicateRerollClause => "Multiple reroll clauses found."@,
            ParseErrorView::ThresholdOutOfRange => "A reroll threshold is out of range."@,
            ParseErrorView::DuplicateCutoffClause => "Multiple cutoff clauses found."@,
            ParseErrorView::InvalidCutoffBound => "A cutoff is out of range."@,
            ParseErrorView::InvertedCutoffRange =>
                "The minimum cutoff is bigger than the maximum cutoff."@,
        }
    }
}

impl ParseError {
    /// The error in words.
    pub fn message(&self) -> (r: String)
        ensures
            r@ == self@.text(),
    {
        let mut out = String::new();
        match self {
            ParseError::InvalidCharacter(c) => {
                put(&mut out, "Input contained invalid character (");
                put_char(&mut out, *c);
                put(&mut out, ").");
            },
            ParseError::EmptyOrMissingGroup => put(&mut out, "Input contains an empty dice group."),
            ParseError::NotDiceOrBonus => put(&mut out, "A dice group is neither dice nor bonus."),
            ParseError::MisplacedExplosiveMarker => put(
                &mut out,
                "An exclamation mark must end its dice group.",
            ),
            ParseError::ModifierMustStartWithLetter => put(
                &mut out,
                "Modifiers must start with a letter.",
            ),
            ParseError::BonusCannotHaveModifiers => put(
                &mut out,
                "A bonus must not have modifiers.",
            ),
            ParseError::MalformedModifierSequence => put(&mut out, "A modifier has no number."),
            ParseError::UnknownModifier(code) => {
                put(&mut out, "(");
                put(&mut out, code.as_str());
                put(&mut out, ") is not a valid modifier.");
            },
            ParseError::NumberTooLarge => put(&mut out, "A number is too large."),
            ParseError::DuplicateDropClause => put(
                &mut out,
                "Multiple drop clauses for the same end found.",
            ),
            ParseError::ExcessiveDrop => put(&mut out, "Dropping all the dice of a group or more."),
            ParseError::ImpossibleDropCombination => put(&mut out, "Impossible drop combination."),
            ParseError::IncompleteRerollClause => put(&mut out, "Incomplete reroll clause."),
            ParseError::DuplicateRerollClause => put(&mut out, "Multiple reroll clauses found."),
            ParseError::ThresholdOutOfRange => put(&mut out, "A reroll threshold is out of range."),
            ParseError::DuplicateCutoffClause => put(&mut out, "Multiple cutoff clauses found."),
            ParseError::InvalidCutoffBound => put(&mut out, "A cutoff is out of range."),
            ParseError::InvertedCutoffRange => put(
                &mut out,
                "The minimum cutoff is bigger than the maximum cutoff.",
            ),
        }
        assert(out@ =~= self@.text());
        out
    }
}

} // verus!
