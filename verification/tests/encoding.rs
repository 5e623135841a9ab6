use c0_backend::bytecode;
use c0_backend::endian::{push_be_u16, push_be_u32, push_le_u32, to_unsigned32};
use c0_backend::x86_encoding::{
    encode_modrm, encode_modrm_opcode, is_encodable, register_index, serialize_op, Memory, Op,
    RegOrMem, Register,
};

fn bytecode_of(op: bytecode::Op) -> Vec<u8> {
    let mut bytes = vec![];
    bytecode::serialize_op(&mut bytes, op);
    bytes
}

fn x86_of(op: Op) -> Vec<u8> {
    assert!(is_encodable(&op));
    let mut bytes = vec![];
    serialize_op(&mut bytes, op);
    bytes
}

#[test]
fn bytes_in_both_orders() {
    let mut bytes = vec![0xAA];
    push_be_u16(&mut bytes, 0x1234);
    push_be_u32(&mut bytes, 0x89ABCDEF);
    push_le_u32(&mut bytes, 0x89ABCDEF);
    assert_eq!(bytes, vec![0xAA, 0x12, 0x34, 0x89, 0xAB, 0xCD, 0xEF, 0xEF, 0xCD, 0xAB, 0x89]);
    assert_eq!(to_unsigned32(0), 0);
    assert_eq!(to_unsigned32(-1), 0xFFFF_FFFF);
    assert_eq!(to_unsigned32(i32::MIN), 0x8000_0000);
    assert_eq!(to_unsigned32(i32::MAX), 0x7FFF_FFFF);
    for v in [0i32, 1, -1, 127, -128, 128, -129, i32::MAX, i32::MIN, 123456, -123456] {
        let mut be = vec![];
        push_be_u32(&mut be, to_unsigned32(v));
        assert_eq!(be, v.to_be_bytes().to_vec());
        let mut le = vec![];
        push_le_u32(&mut le, to_unsigned32(v));
        assert_eq!(le, v.to_le_bytes().to_vec());
    }
}

#[test]
fn bytecode_without_operands() {
    assert_eq!(bytecode_of(bytecode::Op::Nop), vec![0x00]);
    assert_eq!(bytecode_of(bytecode::Op::Pop), vec![0x04]);
    assert_eq!(bytecode_of(bytecode::Op::Pop2), vec![0x05]);
    assert_eq!(bytecode_of(bytecode::Op::Dup), vec![0x07]);
    assert_eq!(bytecode_of(bytecode::Op::Dup2), vec![0x08]);
    assert_eq!(bytecode_of(bytecode::Op::New), vec![0x0b]);
    assert_eq!(bytecode_of(bytecode::Op::ILoad), vec![0x10]);
    assert_eq!(bytecode_of(bytecode::Op::AAStore), vec![0x2a]);
    assert_eq!(bytecode_of(bytecode::Op::IAdd), vec![0x30]);
    assert_eq!(bytecode_of(bytecode::Op::DDiv), vec![0x3d]);
    assert_eq!(bytecode_of(bytecode::Op::I2C), vec![0x62]);
    assert_eq!(bytecode_of(bytecode::Op::Ret), vec![0x88]);
    assert_eq!(bytecode_of(bytecode::Op::ARet), vec![0x8b]);
    assert_eq!(bytecode_of(bytecode::Op::Printl), vec![0xaf]);
    assert_eq!(bytecode_of(bytecode::Op::CScan), vec![0xb2]);
    assert_eq!(bytecode::opcode_of(&bytecode::Op::DCmp), 0x45);
}

#[test]
fn bytecode_with_operands() {
    assert_eq!(bytecode_of(bytecode::Op::Bipush(0x7f)), vec![0x01, 0x7f]);
    assert_eq!(bytecode_of(bytecode::Op::Ipush(0x01020304)), vec![0x02, 1, 2, 3, 4]);
    assert_eq!(bytecode_of(bytecode::Op::Ipush(-2)), vec![0x02, 0xff, 0xff, 0xff, 0xfe]);
    assert_eq!(bytecode_of(bytecode::Op::PopN(258)), vec![0x06, 0, 0, 1, 2]);
    assert_eq!(bytecode_of(bytecode::Op::LoadC(0xBEEF)), vec![0x09, 0xBE, 0xEF]);
    assert_eq!(
        bytecode_of(bytecode::Op::LoadA(0x0102, 0x0A0B0C0D)),
        vec![0x0a, 1, 2, 0x0A, 0x0B, 0x0C, 0x0D]
    );
    assert_eq!(bytecode_of(bytecode::Op::Snew(1)), vec![0x0c, 0, 0, 0, 1]);
    assert_eq!(bytecode_of(bytecode::Op::Jmp(0x1234)), vec![0x70, 0x12, 0x34]);
    assert_eq!(bytecode_of(bytecode::Op::Je(1)), vec![0x71, 0, 1]);
    assert_eq!(bytecode_of(bytecode::Op::Jne(1)), vec![0x72, 0, 1]);
    assert_eq!(bytecode_of(bytecode::Op::Jl(1)), vec![0x73, 0, 1]);
    assert_eq!(bytecode_of(bytecode::Op::Jge(1)), vec![0x74, 0, 1]);
    assert_eq!(bytecode_of(bytecode::Op::Jg(1)), vec![0x75, 0, 1]);
    assert_eq!(bytecode_of(bytecode::Op::Jle(1)), vec![0x76, 0, 1]);
    assert_eq!(bytecode_of(bytecode::Op::Call(0xFFFF)), vec![0x80, 0xff, 0xff]);
}

#[test]
fn bytecode_is_appended() {
    let mut bytes = vec![9, 9];
    bytecode::serialize_op(&mut bytes, bytecode::Op::Bipush(5));
    bytecode::serialize_op(&mut bytes, bytecode::Op::IRet);
    assert_eq!(bytes, vec![9, 9, 0x01, 5, 0x89]);
    let program = vec![bytecode::Op::Bipush(2), bytecode::Op::Bipush(3), bytecode::Op::IAdd, bytecode::Op::IRet];
    assert_eq!(bytecode::serialize_ops(&program), vec![0x01, 2, 0x01, 3, 0x30, 0x89]);
    assert_eq!(bytecode::serialize_ops(&vec![]), Vec::<u8>::new());
}

#[test]
fn registers_by_number() {
    assert_eq!(register_index(&Register::AL), 0);
    assert_eq!(register_index(&Register::RAX), 0);
    assert_eq!(register_index(&Register::ECX), 1);
    assert_eq!(register_index(&Register::DX), 2);
    assert_eq!(register_index(&Register::EBX), 3);
    assert_eq!(register_index(&Register::AH), 4);
    assert_eq!(register_index(&Register::ESP), 4);
    assert_eq!(register_index(&Register::CH), 5);
    assert_eq!(register_index(&Register::RBP), 5);
    assert_eq!(register_index(&Register::DH), 6);
    assert_eq!(register_index(&Register::ESI), 6);
    assert_eq!(register_index(&Register::BH), 7);
    assert_eq!(register_index(&Register::RDI), 7);
    assert_eq!(encode_modrm(&Register::EAX, &Register::EAX), 0xC0);
    assert_eq!(encode_modrm(&Register::ECX, &Register::EDX), 0xC0 | (1 << 3) | 2);
    assert_eq!(encode_modrm(&Register::EDI, &Register::EDI), 0xFF);
    assert_eq!(encode_modrm_opcode(&Register::EBX, 0), 0xC3);
    assert_eq!(encode_modrm_opcode(&Register::EBX, 5), 0xC0 | (5 << 3) | 3);
    assert_eq!(encode_modrm_opcode(&Register::EAX, 0xFF), 0xF8);
}

#[test]
fn x86_instructions() {
    let eax = RegOrMem::Register(Register::EAX);
    let ebx = RegOrMem::Register(Register::EBX);
    assert_eq!(x86_of(Op::Nop), vec![0x90]);
    assert_eq!(x86_of(Op::Ret), vec![0xC3]);
    assert_eq!(x86_of(Op::Mov(eax, ebx)), vec![0x89, 0xC3]);
    assert_eq!(x86_of(Op::Mov(ebx, eax)), vec![0x89, 0xD8]);
    assert_eq!(
        x86_of(Op::Mov(ebx, RegOrMem::Immediate(0x12345678))),
        vec![0xBB, 0x78, 0x56, 0x34, 0x12]
    );
    assert_eq!(x86_of(Op::Mov(eax, RegOrMem::Immediate(-1))), vec![0xB8, 0xff, 0xff, 0xff, 0xff]);
    assert_eq!(x86_of(Op::Push(ebx)), vec![0x53]);
    assert_eq!(x86_of(Op::Push(RegOrMem::Immediate(127))), vec![0x6A, 0x7f]);
    assert_eq!(x86_of(Op::Push(RegOrMem::Immediate(-128))), vec![0x6A, 0x80]);
    assert_eq!(x86_of(Op::Push(RegOrMem::Immediate(128))), vec![0x68, 0x80, 0, 0, 0]);
    assert_eq!(x86_of(Op::Push(RegOrMem::Immediate(-129))), vec![0x68, 0x7f, 0xff, 0xff, 0xff]);
    assert_eq!(x86_of(Op::Pop(ebx)), vec![0x5B]);
    assert_eq!(x86_of(Op::Add(eax, ebx)), vec![0x01, 0xC3]);
    assert_eq!(x86_of(Op::Add(ebx, RegOrMem::Immediate(-1))), vec![0x83, 0xC3, 0xff]);
    assert_eq!(x86_of(Op::Add(ebx, RegOrMem::Immediate(1000))), vec![0x81, 0xC3, 0xE8, 0x03, 0, 0]);
    assert_eq!(x86_of(Op::Jmp(5)), vec![0xEB, 5]);
    assert_eq!(x86_of(Op::Jmp(-2)), vec![0xEB, 0xFE]);
    assert_eq!(x86_of(Op::Jmp(300)), vec![0xE9, 0x2C, 0x01, 0, 0]);
    assert_eq!(x86_of(Op::Call(-5)), vec![0xE8, 0xFB, 0xff, 0xff, 0xff]);
    let mut bytes = vec![1];
    serialize_op(&mut bytes, Op::Nop);
    serialize_op(&mut bytes, Op::Ret);
    assert_eq!(bytes, vec![1, 0x90, 0xC3]);
}

#[test]
fn x86_instructions_without_an_encoding() {
    let eax = RegOrMem::Register(Register::EAX);
    let memory = Memory { base: Some(Register::EBP), index: None, scale: None, displacement: -8 };
    let place = RegOrMem::Memory(memory);
    assert!(!is_encodable(&Op::Mov(place, eax)));
    assert!(!is_encodable(&Op::Mov(eax, place)));
    assert!(!is_encodable(&Op::Mov(RegOrMem::Immediate(1), eax)));
    assert!(!is_encodable(&Op::Push(place)));
    assert!(!is_encodable(&Op::Pop(RegOrMem::Immediate(1))));
    assert!(!is_encodable(&Op::Add(place, eax)));
    assert!(!is_encodable(&Op::Sub(eax, eax)));
    assert!(!is_encodable(&Op::Lea(Register::EAX, memory)));
    assert!(!is_encodable(&Op::Je(1)));
    assert!(!is_encodable(&Op::Syscall));
    assert!(!is_encodable(&Op::Enter(8, 0)));
    assert!(!is_encodable(&Op::Int(0x80)));
    assert!(is_encodable(&Op::Call(0)));
}
