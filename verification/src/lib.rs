//! A lambda-calculus interpreter: terms with binding by identity,
//! beta reduction, printing, a tokenizer, a parser and a session that
//! keeps named definitions.
pub mod expr;
pub mod text;
pub mod display;
pub mod token;
pub mod parse;
pub mod repl;
pub mod roundtrip;
