pub mod ast;
pub mod canonical;
pub mod execution;
pub mod grammar;
pub mod laws;
pub mod lex;
pub mod machine;
pub mod parse;
pub mod render;
pub mod round_trip;
pub mod semantics;
pub mod status;
pub mod text;
