//! A small stack language: an integer stack, eight built-in operators, and
//! words that a program defines in terms of what is already known.
//!
//! Every executable function carries a contract over a mathematical model:
//! text is a `Seq<char>`, the stack a `Seq<Value>`, the word table a
//! `Map` from lower-case names to stored words.  The model of a whole
//! interpreter is a [`Machine`], and [`run`](forth::run) says what evaluating
//! a text does to it.

pub mod forth;
pub mod laws;
pub mod ops;
pub mod run;
pub mod syntax;
pub mod text;
pub mod words;

pub use forth::Forth;
pub use forth::Machine;
pub use ops::Error;
pub use ops::Op;
pub use ops::Outcome;
pub use ops::Value;
