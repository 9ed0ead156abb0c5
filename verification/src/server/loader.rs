//! Bytecode that was built into the program.

use vstd::prelude::*;

verus! {

/// A bytecode module and its name.
#[derive(Debug, PartialEq, Eq)]
pub struct WasmModule {
    pub name: String,
    pub data: Vec<u8>,
}

} // verus!
