//! The analysis that runs inside the compiler.

pub mod callback;
