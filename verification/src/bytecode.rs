//! The instructions of the stack machine and their encoding as bytes.

use vstd::prelude::*;
use crate::endian::{be_u16, be_u32, push_be_u16, push_be_u32, to_unsigned32, unsigned32};

verus! {

/// An instruction of the stack machine.
#[derive(Debug, Clone, Copy, PartialEq, Eq)]
pub enum Op {
    Nop,
    Bipush(u8),
    Ipush(i32),
    Pop,
    Pop2,
    PopN(u32),
    Dup,
    Dup2,
    LoadC(u16),
    LoadA(u16, u32),
    New,
    Snew(u32),
    ILoad,
    DLoad,
    ALoad,
    IALoad,
    DALoad,
    AALoad,
    IStore,
    DStore,
    AStore,
    IAStore,
    DAStore,
    AAStore,
    IAdd,
    DAdd,
    ISub,
    DSub,
    IMul,
    DMul,
    IDiv,
    DDiv,
    INeg,
    DNeg,
    ICmp,
    DCmp,
    I2D,
    D2I,
    I2C,
    Jmp(u16),
    Je(u16),
    Jne(u16),
    Jl(u16),
    Jge(u16),
    Jg(u16),
    Jle(u16),
    Call(u16),
    Ret,
    IRet,
    DRet,
    ARet,
    IPrint,
    DPrint,
    CPrint,
    SPrint,
    Printl,
    IScan,
    DScan,
    CScan,
}

/// The byte that names the instruction.
pub open spec fn opcode(op: Op) -> u8 {
    match op {
        Op::Nop => 0x00,
        Op::Bipush(_) => 0x01,
        Op::Ipush(_) => 0x02,
        Op::Pop => 0x04,
        Op::Pop2 => 0x05,
        Op::PopN(_) => 0x06,
        Op::Dup => 0x07,
        Op::Dup2 => 0x08,
        Op::LoadC(_) => 0x09,
        Op::LoadA(_, _) => 0x0a,
        Op::New => 0x0b,
        Op::Snew(_) => 0x0c,
        Op::ILoad => 0x10,
        Op::DLoad => 0x11,
        Op::ALoad => 0x12,
        Op::IALoad => 0x18,
        Op::DALoad => 0x19,
        Op::AALoad => 0x1a,
        Op::IStore => 0x20,
        Op::DStore => 0x21,
        Op::AStore => 0x22,
        Op::IAStore => 0x28,
        Op::DAStore => 0x29,
        Op::AAStore => 0x2a,
        Op::IAdd => 0x30,
        Op::DAdd => 0x31,
        Op::ISub => 0x34,
        Op::DSub => 0x35,
        Op::IMul => 0x38,
        Op::DMul => 0x39,
        Op::IDiv => 0x3c,
        Op::DDiv => 0x3d,
        Op::INeg => 0x40,
        Op::DNeg => 0x41,
        Op::ICmp => 0x44,
        Op::DCmp => 0x45,
        Op::I2D => 0x60,
        Op::D2I => 0x61,
        Op::I2C => 0x62,
        Op::Jmp(_) => 0x70,
        Op::Je(_) => 0x71,
        Op::Jne(_) => 0x72,
        Op::Jl(_) => 0x73,
        Op::Jge(_) => 0x74,
        Op::Jg(_) => 0x75,
        Op::Jle(_) => 0x76,
        Op::Call(_) => 0x80,
        Op::Ret => 0x88,
        Op::IRet => 0x89,
        Op::DRet => 0x8a,
        Op::ARet => 0x8b,
        Op::IPrint => 0xa0,
        Op::DPrint => 0xa1,
        Op::CPrint => 0xa2,
        Op::SPrint => 0xa3,
        Op::Printl => 0xaf,
        Op::IScan => 0xb0,
        Op::DScan => 0xb1,
        Op::CScan => 0xb2,
    }
}

/// The bytes that follow the opcode: the operands, most significant byte first.
pub open spec fn operand_bytes(op: Op) -> Seq<u8> {
    match op {
        Op::Bipush(value) => seq![value],
        Op::Ipush(value) => be_u32(unsigned32(value)),
        Op::PopN(count) => be_u32(count),
        Op::LoadC(index) => be_u16(index),
        Op::LoadA(index, offset) => be_u16(index) + be_u32(offset),
        Op::Snew(size) => be_u32(size),
        Op::Jmp(target) | Op::Je(target) | Op::Jne(target) | Op::Jl(target) | Op::Jge(target)
        | Op::Jg(target) | Op::Jle(target) | Op::Call(target) => be_u16(target),
        _ => Seq::empty(),
    }
}

/// The encoding of an instruction: its opcode, then its operands.
pub open spec fn encoding(op: Op) -> Seq<u8> {
    seq![opcode(op)] + operand_bytes(op)
}

/// The byte that names the instruction.
pub fn opcode_of(op: &Op) -> (r: u8)
    ensures
        r == opcode(*op),
{
    match op {
        Op::Nop => 0x00,
        Op::Bipush(_) => 0x01,
        Op::Ipush(_) => 0x02,
        Op::Pop => 0x04,
        Op::Pop2 => 0x05,
        Op::PopN(_) => 0x06,
        Op::Dup => 0x07,
        Op::Dup2 => 0x08,
        Op::LoadC(_) => 0x09,
        Op::LoadA(_, _) => 0x0a,
        Op::New => 0x0b,
        Op::Snew(_) => 0x0c,
        Op::ILoad => 0x10,
        Op::DLoad => 0x11,
        Op::ALoad => 0x12,
        Op::IALoad => 0x18,
        Op::DALoad => 0x19,
        Op::AALoad => 0x1a,
        Op::IStore => 0x20,
        Op::DStore => 0x21,
        Op::AStore => 0x22,
        Op::IAStore => 0x28,
        Op::DAStore => 0x29,
        Op::AAStore => 0x2a,
        Op::IAdd => 0x30,
        Op::DAdd => 0x31,
        Op::ISub => 0x34,
        Op::DSub => 0x35,
        Op::IMul => 0x38,
        Op::DMul => 0x39,
        Op::IDiv => 0x3c,
        Op::DDiv => 0x3d,
        Op::INeg => 0x40,
        Op::DNeg => 0x41,
        Op::ICmp => 0x44,
        Op::DCmp => 0x45,
        Op::I2D => 0x60,
        Op::D2I => 0x61,
        Op::I2C => 0x62,
        Op::Jmp(_) => 0x70,
        Op::Je(_) => 0x71,
        Op::Jne(_) => 0x72,
        Op::Jl(_) => 0x73,
        Op::Jge(_) => 0x74,
        Op::Jg(_) => 0x75,
        Op::Jle(_) => 0x76,
        Op::Call(_) => 0x80,
        Op::Ret => 0x88,
        Op::IRet => 0x89,
        Op::DRet => 0x8a,
        Op::ARet => 0x8b,
        Op::IPrint => 0xa0,
        Op::DPrint => 0xa1,
        Op::CPrint => 0xa2,
        Op::SPrint => 0xa3,
        Op::Printl => 0xaf,
        Op::IScan => 0xb0,
        Op::DScan => 0xb1,
        Op::CScan => 0xb2,
    }
}

/// Appends the encoding of an instruction to `bytes`.
pub fn serialize_op(bytes: &mut Vec<u8>, op: Op)
    ensures
        final(bytes)@ == old(bytes)@ + encoding(op),
{
    bytes.push(opcode_of(&op));
    let ghost start = bytes@;
    match op {
        Op::Bipush(value) => {
            bytes.push(value);
        },
        Op::Ipush(value) => {
            push_be_u32(bytes, to_unsigned32(value));
        },
        Op::PopN(count) => {
            push_be_u32(bytes, count);
        },
        Op::LoadC(index) => {
            push_be_u16(bytes, index);
        },
        Op::LoadA(index, offset) => {
            push_be_u16(bytes, index);
            push_be_u32(bytes, offset);
        },
        Op::Snew(size) => {
            push_be_u32(bytes, size);
        },
        Op::Jmp(target)
        | Op::Je(target)
        | Op::Jne(target)
        | Op::Jl(target)
        | Op::Jge(target)
        | Op::Jg(target)
        | Op::Jle(target)
        | Op::Call(target) => {
            push_be_u16(bytes, target);
        },
        _ => {},
    }
    assert(bytes@ =~= old(bytes)@ + encoding(op));
}

/// The bytecode of a sequence of instructions, one encoding after the other.
pub open spec fn program_bytes(ops: Seq<Op>) -> Seq<u8>
    decreases ops.len(),
{
    if ops.len() == 0 {
        Seq::empty()
    } else {
        program_bytes(ops.drop_last()) + encoding(ops.last())
    }
}

/// Encodes a sequence of instructions.
pub fn serialize_ops(ops: &Vec<Op>) -> (bytes: Vec<u8>)
    ensures
        bytes@ == program_bytes(ops@),
{
    let mut bytes: Vec<u8> = Vec::new();
    let mut i: usize = 0;
    assert(ops@.subrange(0, 0) =~= Seq::<Op>::empty());
    while i < ops.len()
        invariant
            i <= ops.len(),
            bytes@ == program_bytes(ops@.subrange(0, i as int)),
        decreases ops.len() - i,
    {
        assert(ops@.subrange(0, i + 1).drop_last() =~= ops@.subrange(0, i as int));
        serialize_op(&mut bytes, ops[i]);
        i += 1;
    }
    assert(ops@.subrange(0, i as int) =~= ops@);
    bytes
}

} // verus!
