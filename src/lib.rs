pub mod ast;
pub mod error;
pub mod lexer;
pub mod ops;
pub mod shuntingyard;
