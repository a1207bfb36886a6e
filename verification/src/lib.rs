//! A line-oriented interpreter for a small postfix expression language with
//! first-class, curry-able, composable function references, indexed and named
//! mutable storage, and basic control flow.
//!
//! Numbers flow through the interpreter as IEEE-754 double bit patterns held
//! in `u64` values; the arithmetic itself is delegated to a software
//! floating-point library behind a small trusted boundary (see `numerics`).

pub mod numerics;
pub mod value;
pub mod machine;
pub mod parser;
pub mod stdlib;
pub mod table;
pub mod laws;
