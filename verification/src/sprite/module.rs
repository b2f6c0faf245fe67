//! Sprite module format - contains functions and metadata
use vstd::prelude::*;
use super::bytecode::Instruction;

verus! {

/// A function in a Sprite module
#[derive(Debug, Clone)]
pub struct Function {
    /// Function name (for debugging)
    pub name: &'static str,
    /// Number of parameters
    pub param_count: u32,
    /// Number of local variables (including parameters)
    pub local_count: u32,
    /// Maximum stack depth needed
    pub max_stack: u32,
    /// The bytecode instructions
    pub code: Vec<Instruction>,
}

/// A complete Sprite module
#[derive(Debug)]
pub struct Module {
    /// Module name
    pub name: &'static str,
    /// Functions in this module
    pub functions: Vec<Function>,
    /// Entry point function index
    pub entry: u32,
}

/// Magic bytes for Sprite bytecode files: "SPRT"
pub const MAGIC: [u8; 4] = [0x53, 0x50, 0x52, 0x54];

/// Current bytecode version
pub const VERSION: u32 = 1;

} // verus!
