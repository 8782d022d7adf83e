//! Dice notation for tabletop games: parsing expressions such as `3d6dl1+4`,
//! computing the range of a parsed bag of dice, rolling it and building
//! distributions of its totals.
//!
//! Everything in this crate is verified with Verus, apart from the few
//! functions that call into `rand` or into parts of `std` that have no
//! specification; those are marked and documented where they stand.
//!
//! - [`distribution`]: dice groups, bonuses, their clauses, the bag and its
//!   range.
//! - [`text`], [`modifiers`], [`parse`]: from the text of an expression to
//!   a bag; [`error`]: why an expression is refused.
//! - [`roll`]: one roll of a bag and its report; [`histogram`]: how often
//!   each total comes up in many rolls.
//! - [`notation`]: from a bag, or from the report of a roll, back to text.
//! - [`grammar`], [`laws`]: what is proved of all expressions and bags.

pub mod distribution;
pub mod error;
pub mod grammar;
pub mod histogram;
pub mod laws;
pub mod modifiers;
pub mod notation;
pub mod parse;
pub mod roll;
pub mod text;

pub use parse::parse;
