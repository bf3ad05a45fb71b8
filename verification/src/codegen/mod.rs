pub mod token;
pub mod c;
