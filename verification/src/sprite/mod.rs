//! Sprite - bytecode format for the Sprite VM.
//!
//! This module provides:
//! - Bytecode instruction format
//! - Module format (functions and metadata)
pub mod bytecode;
pub mod module;
