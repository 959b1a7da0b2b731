//! A small C compiler: lexer, parser, semantic checker, three-address-code
//! lowering and x86-64 code generation, together with the interner and arena
//! data structures the passes are built on.
pub mod arena;
pub mod intern;
pub mod text;
pub mod compiler;
