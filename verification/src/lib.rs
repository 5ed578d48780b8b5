//! An interpreter for a small language in which every expression works two
//! ways: as a constructor it makes a value from bindings, and as a pattern it
//! takes a value apart into bindings. A function is a list of rules, each a
//! pattern and a constructor, and can be run forward and in reverse.
//!
//! A pattern may hold operators. Where one side of an operator is known, the
//! operator is inverted: the other side is matched against what it must have
//! been. Numbers are exact fractions, so that what is inverted comes out
//! exactly; beside them stand the two infinities and what is not a number,
//! and arithmetic never fails.
//!
//! [`semantics`] says what evaluation means; [`interpret`], [`engine`] and
//! [`destruct_algebra`] evaluate; [`laws`], [`frames`], [`duality`],
//! [`reversal`] and [`exactness`] hold what is proved of evaluation;
//! [`parser`] builds programs from tokens.
pub mod arithmetic;
pub mod ast;
pub mod chars;
pub mod destruct_algebra;
pub mod duality;
pub mod engine;
pub mod error;
pub mod exactness;
pub mod frames;
pub mod gcd;
pub mod interpret;
pub mod inverses;
pub mod laws;
pub mod names;
pub mod number;
pub mod parser;
pub mod reversal;
pub mod semantics;
pub mod span;
pub mod text;
pub mod traits;
pub mod value;
pub mod variables;
