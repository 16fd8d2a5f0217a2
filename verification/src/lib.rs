//! Rule-application core of a source-code formatter.
//!
//! Given a parsed, read-only syntax tree and two declarative rule sets, the
//! crate computes the ordered list of atomic text edits that brings the
//! tree's whitespace into canonical form without touching any other token.
//!
//! * [`tree`] holds the syntax tree and its builder. The crate parses
//!   nothing: whoever holds a parsed tree hands it over node by node.
//! * [`pattern`] and [`dsl`] hold the predicates and the rules.
//! * [`engine`] holds the whitespace overlay and the three passes over it:
//!   spacing, indentation and fix-ups; [`engine::format`] runs them.
//! * [`diff`] holds the edit list and applies it to a text.
//! * [`laws`], [`outcome`] and [`settle`] state and prove what holds of
//!   every run.
pub mod diff;
pub mod dsl;
pub mod engine;
pub mod kinds;
pub mod laws;
pub mod outcome;
pub mod pattern;
pub mod settle;
pub mod text;
pub mod tree;
