//! A verified core of the pulsar hardware compiler: utilities (scoped
//! environments, union-find, locations, diagnostics), the frontend (tokens,
//! lexer, parser, type inference) and the IR with its passes.
pub mod frontend;
pub mod ir;
pub mod utils;
pub mod backend;
