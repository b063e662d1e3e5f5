pub mod error;
pub mod input;
pub mod mem;
pub mod rand;
pub mod words;
pub mod corpus;
pub mod mutations;
pub mod tokens;
