//! Resolution of symbolic address locators inside another process's address
//! space: a memory-region table parsed from the process's map listing, a
//! wildcard byte-pattern scanner, a pointer-chain walker, and an exported
//! ELF symbol lookup.

use vstd::prelude::*;

pub mod address;
pub mod args;
pub mod bytestr;
pub mod data_type;
pub mod laws;
pub mod reader;
pub mod symbols;
pub mod memory;

