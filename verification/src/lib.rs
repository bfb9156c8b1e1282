pub mod derivative;
pub mod error;
pub mod grammar;
pub mod language;
pub mod lexer;
pub mod model;
pub mod parser;
pub mod regex;

pub use crate::regex::Regex;
