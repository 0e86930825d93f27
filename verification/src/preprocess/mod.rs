pub mod ast;
pub mod generator;
pub mod parser;
pub mod scan;
