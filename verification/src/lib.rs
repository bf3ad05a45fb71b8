//! Core of the Insert compiler: the mid-level representation of programs,
//! its passes, and the token-based lowering to C.

pub mod codegen;
pub mod mir;
pub mod parser;
pub mod targets;
pub mod util;
