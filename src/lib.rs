//! Small puzzle solvers over text input, each proved against a mathematical
//! model of what it computes.
//!
//! The centre is a beam simulator on a grid of splitters (`grid`, `bitset`,
//! `splits`, `timelines`, with `paths` and `laws` for what holds of them).
//! Around it stand the other solvers: a turning dial (`dial`), repeated-digit
//! IDs (`invalid_ids`), battery digits (`joltage`), rolls of paper (`rolls`),
//! ID ranges (`intervals`) and a math worksheet (`worksheet`), sharing the
//! text and number reading of `text` and `numbers`.

pub mod bignum;
pub mod text;
pub mod numbers;
pub mod grid;
pub mod bitset;
pub mod splits;
pub mod timelines;
pub mod paths;
pub mod laws;
pub mod dial;
pub mod invalid_ids;
pub mod joltage;
pub mod rolls;
pub mod intervals;
pub mod worksheet;
