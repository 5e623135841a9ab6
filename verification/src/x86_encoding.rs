//! A subset of x86 instructions and their encoding as bytes.

use vstd::prelude::*;
use crate::endian::{le_u32, push_le_u32, to_unsigned32, unsigned32};

verus! {

/// An x86 instruction.
#[derive(Debug, Clone, Copy, PartialEq, Eq)]
pub enum Op {
    // Data movement
    Mov(RegOrMem, RegOrMem),
    Push(RegOrMem),
    Pop(RegOrMem),
    Lea(Register, Memory),
    // Arithmetic
    Add(RegOrMem, RegOrMem),
    Sub(RegOrMem, RegOrMem),
    Mul(RegOrMem),
    Div(RegOrMem),
    Inc(RegOrMem),
    Dec(RegOrMem),
    Neg(RegOrMem),
    // Control flow
    Jmp(i32),
    Je(i32),
    Jne(i32),
    Jl(i32),
    Jle(i32),
    Jg(i32),
    Jge(i32),
    Call(i32),
    Ret,
    // Comparison
    Cmp(RegOrMem, RegOrMem),
    Test(RegOrMem, RegOrMem),
    // Stack frame
    Enter(u16, u8),
    Leave,
    // String operations
    Rep,
    Movsb,
    Movsw,
    Movsd,
    // System
    Int(u8),
    Syscall,
    // No operation
    Nop,
}

/// A register, by the name of one of its widths.
#[derive(Debug, Clone, Copy, PartialEq, Eq)]
pub enum Register {
    // 8-bit registers
    AL,
    BL,
    CL,
    DL,
    AH,
    BH,
    CH,
    DH,
    // 16-bit registers
    AX,
    BX,
    CX,
    DX,
    SP,
    BP,
    SI,
    DI,
    // 32-bit registers
    EAX,
    EBX,
    ECX,
    EDX,
    ESP,
    EBP,
    ESI,
    EDI,
    // 64-bit registers
    RAX,
    RBX,
    RCX,
    RDX,
    RSP,
    RBP,
    RSI,
    RDI,
}

/// An operand: a register, a place in memory or a constant.
#[derive(Debug, Clone, Copy, PartialEq, Eq)]
pub enum RegOrMem {
    Register(Register),
    Memory(Memory),
    Immediate(i32),
}

/// A place in memory: `base + index * scale + displacement`.
#[derive(Debug, Clone, Copy, PartialEq, Eq)]
pub struct Memory {
    pub base: Option<Register>,
    pub index: Option<Register>,
    /// 1, 2, 4 or 8.
    pub scale: Option<u8>,
    pub displacement: i32,
}

/// The three bits that name a register in an instruction.
pub open spec fn index_of(reg: Register) -> u8 {
    match reg {
        Register::AL | Register::AX | Register::EAX | Register::RAX => 0,
        Register::CL | Register::CX | Register::ECX | Register::RCX => 1,
        Register::DL | Register::DX | Register::EDX | Register::RDX => 2,
        Register::BL | Register::BX | Register::EBX | Register::RBX => 3,
        Register::AH | Register::SP | Register::ESP | Register::RSP => 4,
        Register::CH | Register::BP | Register::EBP | Register::RBP => 5,
        Register::DH | Register::SI | Register::ESI | Register::RSI => 6,
        Register::BH | Register::DI | Register::EDI | Register::RDI => 7,
    }
}

/// The ModRM byte for two registers: mode 3, the first register in the
/// middle three bits, the second in the low three.
pub open spec fn modrm(reg1: Register, reg2: Register) -> u8 {
    (0xC0 + 8 * index_of(reg1) + index_of(reg2)) as u8
}

/// The ModRM byte for an opcode extension and a register. Of the extension
/// only the low five bits count: the byte has room for no more.
pub open spec fn modrm_opcode(reg: Register, extension: u8) -> u8 {
    0xC0u8 | ((extension % 32) * 8) as u8 | index_of(reg)
}

/// Whether the constant fits in one signed byte.
pub open spec fn is_short(v: i32) -> bool {
    -128 <= v <= 127
}

/// The low byte of a 32-bit two's complement number.
pub open spec fn low_byte(v: i32) -> u8 {
    (unsigned32(v) % 0x100) as u8
}

/// Whether the encoder knows the instruction.
pub open spec fn encodable(op: Op) -> bool {
    match op {
        Op::Nop | Op::Ret | Op::Jmp(_) | Op::Call(_) => true,
        Op::Mov(RegOrMem::Register(_), RegOrMem::Register(_)) => true,
        Op::Mov(RegOrMem::Register(_), RegOrMem::Immediate(_)) => true,
        Op::Push(RegOrMem::Register(_)) | Op::Push(RegOrMem::Immediate(_)) => true,
        Op::Pop(RegOrMem::Register(_)) => true,
        Op::Add(RegOrMem::Register(_), RegOrMem::Register(_)) => true,
        Op::Add(RegOrMem::Register(_), RegOrMem::Immediate(_)) => true,
        _ => false,
    }
}

/// The encoding of an instruction that the encoder knows. A constant that
/// fits in one signed byte takes the short form where there is one.
pub open spec fn encoding(op: Op) -> Seq<u8> {
    match op {
        Op::Nop => seq![0x90u8],
        Op::Ret => seq![0xC3u8],
        Op::Mov(RegOrMem::Register(rd), RegOrMem::Register(rs)) => seq![0x89u8, modrm(rd, rs)],
        Op::Mov(RegOrMem::Register(rd), RegOrMem::Immediate(imm)) => seq![(0xB8 + index_of(rd)) as u8]
            + le_u32(unsigned32(imm)),
        Op::Push(RegOrMem::Register(reg)) => seq![(0x50 + index_of(reg)) as u8],
        Op::Push(RegOrMem::Immediate(imm)) => if is_short(imm) {
            seq![0x6Au8, low_byte(imm)]
        } else {
            seq![0x68u8] + le_u32(unsigned32(imm))
        },
        Op::Pop(RegOrMem::Register(reg)) => seq![(0x58 + index_of(reg)) as u8],
        Op::Add(RegOrMem::Register(rd), RegOrMem::Register(rs)) => seq![0x01u8, modrm(rd, rs)],
        Op::Add(RegOrMem::Register(rd), RegOrMem::Immediate(imm)) => if is_short(imm) {
            seq![0x83u8, modrm_opcode(rd, 0), low_byte(imm)]
        } else {
            seq![0x81u8, modrm_opcode(rd, 0)] + le_u32(unsigned32(imm))
        },
        Op::Jmp(offset) => if is_short(offset) {
            seq![0xEBu8, low_byte(offset)]
        } else {
            seq![0xE9u8] + le_u32(unsigned32(offset))
        },
        Op::Call(offset) => seq![0xE8u8] + le_u32(unsigned32(offset)),
        _ => Seq::empty(),
    }
}

/// The three bits that name a register in an instruction.
pub fn register_index(reg: &Register) -> (r: u8)
    ensures
        r == index_of(*reg),
        r < 8,
{
    match reg {
        Register::AL | Register::AX | Register::EAX | Register::RAX => 0,
        Register::CL | Register::CX | Register::ECX | Register::RCX => 1,
        Register::DL | Register::DX | Register::EDX | Register::RDX => 2,
        Register::BL | Register::BX | Register::EBX | Register::RBX => 3,
        Register::AH | Register::SP | Register::ESP | Register::RSP => 4,
        Register::CH | Register::BP | Register::EBP | Register::RBP => 5,
        Register::DH | Register::SI | Register::ESI | Register::RSI => 6,
        Register::BH | Register::DI | Register::EDI | Register::RDI => 7,
    }
}

/// The ModRM byte for two registers.
pub fn encode_modrm(reg1: &Register, reg2: &Register) -> (r: u8)
    ensures
        r == modrm(*reg1, *reg2),
{
    let a = register_index(reg1);
    let b = register_index(reg2);
    assert(0xC0u8 | (a << 3) | b == (0xC0 + 8 * a + b) as u8) by (bit_vector)
        requires
            a < 8,
            b < 8,
    ;
    0xC0 | (a << 3) | b
}

/// The ModRM byte for an opcode extension and a register.
pub fn encode_modrm_opcode(reg: &Register, opcode: u8) -> (r: u8)
    ensures
        r == modrm_opcode(*reg, opcode),
        opcode < 8 ==> r == 0xC0 + 8 * opcode + index_of(*reg),
{
    let b = register_index(reg);
    assert(0xC0u8 | (opcode << 3) | b == 0xC0u8 | ((opcode % 32) * 8) as u8 | b) by (bit_vector);
    assert(opcode < 8 ==> 0xC0u8 | (opcode << 3) | b == (0xC0 + 8 * opcode + b) as u8) by (bit_vector)
        requires
            b < 8,
    ;
    0xC0 | (opcode << 3) | b
}

/// The low byte of a 32-bit two's complement number.
fn low_byte_of(v: i32) -> (r: u8)
    ensures
        r == low_byte(v),
{
    (to_unsigned32(v) % 0x100) as u8
}

/// Whether the encoder knows the instruction.
pub fn is_encodable(op: &Op) -> (r: bool)
    ensures
        r == encodable(*op),
{
    match op {
        Op::Nop | Op::Ret | Op::Jmp(_) | Op::Call(_) => true,
        Op::Mov(RegOrMem::Register(_), RegOrMem::Register(_)) => true,
        Op::Mov(RegOrMem::Register(_), RegOrMem::Immediate(_)) => true,
        Op::Push(RegOrMem::Register(_)) | Op::Push(RegOrMem::Immediate(_)) => true,
        Op::Pop(RegOrMem::Register(_)) => true,
        Op::Add(RegOrMem::Register(_), RegOrMem::Register(_)) => true,
        Op::Add(RegOrMem::Register(_), RegOrMem::Immediate(_)) => true,
        _ => false,
    }
}

/// Appends the encoding of an instruction to `bytes`.
pub fn serialize_op(bytes: &mut Vec<u8>, op: Op)
    requires
        encodable(op),
    ensures
        final(bytes)@ == old(bytes)@ + encoding(op),
{
    match op {
        Op::Nop => {
            bytes.push(0x90);
        },
        Op::Mov(RegOrMem::Register(rd), RegOrMem::Register(rs)) => {
            bytes.push(0x89);
            bytes.push(encode_modrm(&rd, &rs));
        },
        Op::Mov(RegOrMem::Register(rd), RegOrMem::Immediate(imm)) => {
            bytes.push(0xB8 + register_index(&rd));
            push_le_u32(bytes, to_unsigned32(imm));
        },
        Op::Push(RegOrMem::Register(reg)) => {
            bytes.push(0x50 + register_index(&reg));
        },
        Op::Push(RegOrMem::Immediate(imm)) => {
            if imm >= -128 && imm <= 127 {
                bytes.push(0x6A);
                bytes.push(low_byte_of(imm));
            } else {
                bytes.push(0x68);
                push_le_u32(bytes, to_unsigned32(imm));
            }
        },
        Op::Pop(RegOrMem::Register(reg)) => {
            bytes.push(0x58 + register_index(&reg));
        },
        Op::Add(RegOrMem::Register(rd), RegOrMem::Register(rs)) => {
            bytes.push(0x01);
            bytes.push(encode_modrm(&rd, &rs));
        },
        Op::Add(RegOrMem::Register(rd), RegOrMem::Immediate(imm)) => {
            if imm >= -128 && imm <= 127 {
                bytes.push(0x83);
                bytes.push(encode_modrm_opcode(&rd, 0));
                bytes.push(low_byte_of(imm));
            } else {
                bytes.push(0x81);
                bytes.push(encode_modrm_opcode(&rd, 0));
                push_le_u32(bytes, to_unsigned32(imm));
            }
        },
        Op::Jmp(offset) => {
            if offset >= -128 && offset <= 127 {
                bytes.push(0xEB);
                bytes.push(low_byte_of(offset));
            } else {
                bytes.push(0xE9);
                push_le_u32(bytes, to_unsigned32(offset));
            }
        },
        Op::Call(offset) => {
            bytes.push(0xE8);
            push_le_u32(bytes, to_unsigned32(offset));
        },
        Op::Ret => {
            bytes.push(0xC3);
        },
        _ => {},
    }
    assert(bytes@ =~= old(bytes)@ + encoding(op));
}

} // verus!
