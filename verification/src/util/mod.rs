pub mod name;
pub mod text;
