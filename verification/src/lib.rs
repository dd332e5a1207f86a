pub mod text;
pub mod base;
pub mod field;
pub mod decode;
pub mod cli;
pub mod generator;
