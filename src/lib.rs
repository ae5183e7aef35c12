//! A word-at-a-time evaluator for a small postfix language.
//!
//! - `integer`: integers of any size, computed with `num-bigint`.
//! - `float`: the float operations that the embedding program supplies.
//! - `value`: runtime values, their text and the literal syntax.
//! - `dict`: scoped word dictionaries with aliases.
//! - `calc`: the evaluator state machine.
//! - `builtins`: the primitive operations.

pub mod builtins;
pub mod calc;
pub mod dict;
pub mod float;
pub mod integer;
pub mod value;
