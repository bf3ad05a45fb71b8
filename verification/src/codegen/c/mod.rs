pub mod compress;
pub mod lower;
pub mod markers;
pub mod program;
pub mod token;
