use corn_sprite::sprite::bytecode::{Instruction, Opcode};
use corn_sprite::sprite::module::{Function, Module, MAGIC, VERSION};

const ALL: [(Opcode, u8); 29] = [
    (Opcode::Nop, 0x00),
    (Opcode::PushI, 0x10),
    (Opcode::Pop, 0x11),
    (Opcode::Dup, 0x12),
    (Opcode::Swap, 0x13),
    (Opcode::Add, 0x20),
    (Opcode::Sub, 0x21),
    (Opcode::Mul, 0x22),
    (Opcode::Div, 0x23),
    (Opcode::Mod, 0x24),
    (Opcode::Neg, 0x25),
    (Opcode::Eq, 0x30),
    (Opcode::Ne, 0x31),
    (Opcode::Lt, 0x32),
    (Opcode::Le, 0x33),
    (Opcode::Gt, 0x34),
    (Opcode::Ge, 0x35),
    (Opcode::And, 0x40),
    (Opcode::Or, 0x41),
    (Opcode::Not, 0x42),
    (Opcode::Load, 0x50),
    (Opcode::Store, 0x51),
    (Opcode::Jmp, 0x60),
    (Opcode::Jz, 0x61),
    (Opcode::Jnz, 0x62),
    (Opcode::Call, 0x70),
    (Opcode::Ret, 0x71),
    (Opcode::Syscall, 0x80),
    (Opcode::Halt, 0xFF),
];

#[test]
fn opcode_bytes() {
    for (op, byte) in ALL {
        assert_eq!(op.to_u8(), byte);
    }
}

#[test]
fn opcode_decode_round_trip() {
    for (op, byte) in ALL {
        assert_eq!(Opcode::try_from(byte), Ok(op));
        assert_eq!(Opcode::try_from(op.to_u8()), Ok(op));
    }
}

#[test]
fn opcode_rejects_other_bytes() {
    let mut accepted = 0;
    for b in 0..=255u8 {
        match Opcode::try_from(b) {
            Ok(op) => {
                accepted += 1;
                assert_eq!(op.to_u8(), b);
            }
            Err(()) => assert!(ALL.iter().all(|(_, byte)| *byte != b)),
        }
    }
    assert_eq!(accepted, 29);
    assert_eq!(Opcode::try_from(0x01), Err(()));
    assert_eq!(Opcode::try_from(0xFE), Err(()));
    let r: Result<Opcode, ()> = 0x71u8.try_into();
    assert_eq!(r, Ok(Opcode::Ret));
}

#[test]
fn instruction_constructors() {
    let i = Instruction::new(Opcode::Pop);
    assert_eq!(i, Instruction { opcode: Opcode::Pop, operand: 0 });
    let j = Instruction::with_operand(Opcode::PushI, -42);
    assert_eq!(j.opcode, Opcode::PushI);
    assert_eq!(j.operand, -42);
}

#[test]
fn module_format() {
    assert_eq!(&MAGIC, b"SPRT");
    assert_eq!(VERSION, 1);
    let f = Function {
        name: "main",
        param_count: 0,
        local_count: 1,
        max_stack: 2,
        code: vec![Instruction::with_operand(Opcode::PushI, 1), Instruction::new(Opcode::Halt)],
    };
    let m = Module { name: "demo", functions: vec![f.clone()], entry: 0 };
    assert_eq!(m.functions[0].code.len(), 2);
    assert_eq!(m.functions[m.entry as usize].name, "main");
}
