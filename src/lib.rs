//! Reports which x86 instruction-set extensions the machine code of a
//! binary uses, in total or per function symbol.
pub mod aggregate;
pub mod binary;
pub mod cli;
pub mod command;
pub mod decode;
pub mod index;
pub mod symbols;
