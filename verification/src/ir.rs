pub mod port;
pub mod instr;
pub mod control;
pub mod visitor;
pub mod timing;
pub mod memory;
pub mod cell;
pub mod label;
pub mod demangle;
pub mod component;
pub mod pass;
pub mod side_effect;
pub mod from_ast;
