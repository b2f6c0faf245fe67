//! Verified core of the corn-sprite system: the kernel's memory management
//! (addresses, frame allocator, Sv39 page tables, bump heap), the UART
//! protocol decisions, the Sprig lexer and AST, and the Sprite bytecode format.
pub mod memory;
pub mod sprig;
pub mod sprite;
pub mod uart;
