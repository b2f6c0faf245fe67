//! Sprite bytecode instruction definitions
use vstd::prelude::*;
use vstd::std_specs::convert::TryFromSpecImpl;

verus! {

/// Bytecode instructions for the Sprite VM. Each opcode is encoded as one byte,
/// given by `to_u8`.
#[derive(Debug, Clone, Copy, PartialEq, Eq, Structural)]
pub enum Opcode {
    /// No operation (`0x00`)
    Nop,
    /// Push immediate i64 value (`0x10`)
    PushI,
    /// Pop and discard top of stack (`0x11`)
    Pop,
    /// Duplicate top of stack (`0x12`)
    Dup,
    /// Swap top two stack values (`0x13`)
    Swap,
    /// Add top two values (`0x20`)
    Add,
    /// Subtract (second - top) (`0x21`)
    Sub,
    /// Multiply (`0x22`)
    Mul,
    /// Divide (second / top) (`0x23`)
    Div,
    /// Modulo (second % top) (`0x24`)
    Mod,
    /// Negate top value (`0x25`)
    Neg,
    /// Equal (`0x30`)
    Eq,
    /// Not equal (`0x31`)
    Ne,
    /// Less than (`0x32`)
    Lt,
    /// Less than or equal (`0x33`)
    Le,
    /// Greater than (`0x34`)
    Gt,
    /// Greater than or equal (`0x35`)
    Ge,
    /// Logical AND (`0x40`)
    And,
    /// Logical OR (`0x41`)
    Or,
    /// Logical NOT (`0x42`)
    Not,
    /// Load from local slot (`0x50`)
    Load,
    /// Store to local slot (`0x51`)
    Store,
    /// Unconditional jump (`0x60`)
    Jmp,
    /// Jump if zero (false) (`0x61`)
    Jz,
    /// Jump if not zero (true) (`0x62`)
    Jnz,
    /// Call function by index (`0x70`)
    Call,
    /// Return from function (`0x71`)
    Ret,
    /// System call (`0x80`)
    Syscall,
    /// Halt execution (`0xFF`)
    Halt,
}

impl Opcode {
    /// The byte that encodes the opcode.
    pub open spec fn spec_to_u8(self) -> u8 {
        match self {
            Opcode::Nop => 0x00,
            Opcode::PushI => 0x10,
            Opcode::Pop => 0x11,
            Opcode::Dup => 0x12,
            Opcode::Swap => 0x13,
            Opcode::Add => 0x20,
            Opcode::Sub => 0x21,
            Opcode::Mul => 0x22,
            Opcode::Div => 0x23,
            Opcode::Mod => 0x24,
            Opcode::Neg => 0x25,
            Opcode::Eq => 0x30,
            Opcode::Ne => 0x31,
            Opcode::Lt => 0x32,
            Opcode::Le => 0x33,
            Opcode::Gt => 0x34,
            Opcode::Ge => 0x35,
            Opcode::And => 0x40,
            Opcode::Or => 0x41,
            Opcode::Not => 0x42,
            Opcode::Load => 0x50,
            Opcode::Store => 0x51,
            Opcode::Jmp => 0x60,
            Opcode::Jz => 0x61,
            Opcode::Jnz => 0x62,
            Opcode::Call => 0x70,
            Opcode::Ret => 0x71,
            Opcode::Syscall => 0x80,
            Opcode::Halt => 0xFF,
        }
    }

    /// The byte that encodes the opcode.
    pub fn to_u8(self) -> (r: u8)
        ensures
            r == self.spec_to_u8(),
    {
        match self {
            Opcode::Nop => 0x00,
            Opcode::PushI => 0x10,
            Opcode::Pop => 0x11,
            Opcode::Dup => 0x12,
            Opcode::Swap => 0x13,
            Opcode::Add => 0x20,
            Opcode::Sub => 0x21,
            Opcode::Mul => 0x22,
            Opcode::Div => 0x23,
            Opcode::Mod => 0x24,
            Opcode::Neg => 0x25,
            Opcode::Eq => 0x30,
            Opcode::Ne => 0x31,
            Opcode::Lt => 0x32,
            Opcode::Le => 0x33,
            Opcode::Gt => 0x34,
            Opcode::Ge => 0x35,
            Opcode::And => 0x40,
            Opcode::Or => 0x41,
            Opcode::Not => 0x42,
            Opcode::Load => 0x50,
            Opcode::Store => 0x51,
            Opcode::Jmp => 0x60,
            Opcode::Jz => 0x61,
            Opcode::Jnz => 0x62,
            Opcode::Call => 0x70,
            Opcode::Ret => 0x71,
            Opcode::Syscall => 0x80,
            Opcode::Halt => 0xFF,
        }
    }
}

/// The opcode that byte `value` encodes, or `Err(())` for a byte that encodes none.
pub open spec fn decode_opcode(value: u8) -> Result<Opcode, ()> {
    match value {
        0x00 => Ok(Opcode::Nop),
        0x10 => Ok(Opcode::PushI),
        0x11 => Ok(Opcode::Pop),
        0x12 => Ok(Opcode::Dup),
        0x13 => Ok(Opcode::Swap),
        0x20 => Ok(Opcode::Add),
        0x21 => Ok(Opcode::Sub),
        0x22 => Ok(Opcode::Mul),
        0x23 => Ok(Opcode::Div),
        0x24 => Ok(Opcode::Mod),
        0x25 => Ok(Opcode::Neg),
        0x30 => Ok(Opcode::Eq),
        0x31 => Ok(Opcode::Ne),
        0x32 => Ok(Opcode::Lt),
        0x33 => Ok(Opcode::Le),
        0x34 => Ok(Opcode::Gt),
        0x35 => Ok(Opcode::Ge),
        0x40 => Ok(Opcode::And),
        0x41 => Ok(Opcode::Or),
        0x42 => Ok(Opcode::Not),
        0x50 => Ok(Opcode::Load),
        0x51 => Ok(Opcode::Store),
        0x60 => Ok(Opcode::Jmp),
        0x61 => Ok(Opcode::Jz),
        0x62 => Ok(Opcode::Jnz),
        0x70 => Ok(Opcode::Call),
        0x71 => Ok(Opcode::Ret),
        0x80 => Ok(Opcode::Syscall),
        0xFF => Ok(Opcode::Halt),
        _ => Err(()),
    }
}

impl TryFrom<u8> for Opcode {
    type Error = ();

    fn try_from(value: u8) -> (r: Result<Self, Self::Error>) {
        match value {
            0x00 => Ok(Self::Nop),
            0x10 => Ok(Self::PushI),
            0x11 => Ok(Self::Pop),
            0x12 => Ok(Self::Dup),
            0x13 => Ok(Self::Swap),
            0x20 => Ok(Self::Add),
            0x21 => Ok(Self::Sub),
            0x22 => Ok(Self::Mul),
            0x23 => Ok(Self::Div),
            0x24 => Ok(Self::Mod),
            0x25 => Ok(Self::Neg),
            0x30 => Ok(Self::Eq),
            0x31 => Ok(Self::Ne),
            0x32 => Ok(Self::Lt),
            0x33 => Ok(Self::Le),
            0x34 => Ok(Self::Gt),
            0x35 => Ok(Self::Ge),
            0x40 => Ok(Self::And),
            0x41 => Ok(Self::Or),
            0x42 => Ok(Self::Not),
            0x50 => Ok(Self::Load),
            0x51 => Ok(Self::Store),
            0x60 => Ok(Self::Jmp),
            0x61 => Ok(Self::Jz),
            0x62 => Ok(Self::Jnz),
            0x70 => Ok(Self::Call),
            0x71 => Ok(Self::Ret),
            0x80 => Ok(Self::Syscall),
            0xFF => Ok(Self::Halt),
            _ => Err(()),
        }
    }
}

impl TryFromSpecImpl<u8> for Opcode {
    open spec fn obeys_try_from_spec() -> bool {
        true
    }

    open spec fn try_from_spec(v: u8) -> Result<Self, Self::Error> {
        decode_opcode(v)
    }
}

/// Decoding the byte of an opcode gives the opcode back.
pub proof fn lemma_decode_encode(op: Opcode)
    ensures
        decode_opcode(op.spec_to_u8()) == Ok::<Opcode, ()>(op),
{
}

/// A byte that decodes to an opcode is that opcode's byte.
pub proof fn lemma_encode_decode(value: u8)
    ensures
        decode_opcode(value) matches Ok(op) ==> op.spec_to_u8() == value,
{
}

/// A single instruction with its operand
#[derive(Debug, Clone, Copy, PartialEq, Eq, Structural)]
pub struct Instruction {
    pub opcode: Opcode,
    pub operand: i64,
}

impl Instruction {
    /// An instruction with operand 0.
    pub fn new(opcode: Opcode) -> (r: Self)
        ensures
            r == (Instruction { opcode, operand: 0 }),
    {
        Instruction { opcode, operand: 0 }
    }

    pub fn with_operand(opcode: Opcode, operand: i64) -> (r: Self)
        ensures
            r == (Instruction { opcode, operand }),
    {
        Instruction { opcode, operand }
    }
}

} // verus!
