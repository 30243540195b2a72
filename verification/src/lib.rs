//! The rua scripting language.
pub mod ast;
pub mod builtin;
pub mod bytecode;
pub mod cdecl;
pub mod cli;
pub mod codegen;
pub mod compile;
pub mod conduct;
pub mod hash;
pub mod jit;
pub mod lsp;
pub mod machine;
pub mod modules;
pub mod num;
pub mod table;
pub mod text;
pub mod tier;
pub mod value;
pub mod vm;
