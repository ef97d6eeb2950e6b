pub mod dataset;
pub mod matching;
pub mod text;
pub mod validate;
