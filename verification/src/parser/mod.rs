pub mod number;
pub mod span;
