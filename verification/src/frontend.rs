pub mod attribute;
pub mod op;
pub mod token;
pub mod lexer;
pub mod ast;
pub mod parser;
pub mod type_inferer;
