//! Verified core of a symbolic calculator: key handling, cursor and text
//! layout, an expression parser and a polynomial simplifier.

pub mod eadk;
pub mod text;
pub mod input;
pub mod fixed;
pub mod polynomial;
pub mod evaluation;
pub mod parsebeta;
pub mod ui;
pub mod parser;
pub mod tidy;
