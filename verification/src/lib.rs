//! A linker for relocatable object modules of an 8-bit address space.
//!
//! Object modules are combined into one or more binary images according to a
//! placement script. The work is a batch pipeline: the structural graph of
//! files, memory regions, segments and sections is built first, then every
//! element receives its address and output extent, then the imported symbols
//! are resolved to values, and at last the bytes of every output file are
//! written.

pub mod decimal;
pub mod error;
pub mod expr;
pub mod index;
pub mod link;
pub mod names;
pub mod object;
pub mod range;
pub mod script;
