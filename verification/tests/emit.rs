use c0_backend::assembly::{
    AbstractAssemblyInstruction, AsmLabel, BasicBlockId, BinaryOperator, Condition, Dest, Operand,
    Target, UnaryOperator,
};
use c0_backend::config::Config;
use c0_backend::emit::{
    emit_function, push_instruction, serialize_condition, serialize_dest, serialize_label,
    serialize_operand,
};

fn text_of(instruction: AbstractAssemblyInstruction) -> String {
    let mut s = String::new();
    push_instruction(&mut s, &instruction);
    s
}

#[test]
fn destinations_and_operands() {
    assert_eq!(serialize_dest(&Dest::Register(0)), "(0)");
    assert_eq!(serialize_dest(&Dest::Register(15)), "(15)");
    assert_eq!(serialize_dest(&Dest::Temp(0)), "%t0");
    assert_eq!(serialize_dest(&Dest::Temp(1234567890)), "%t1234567890");
    assert_eq!(serialize_dest(&Dest::Temp(usize::MAX)), format!("%t{}", usize::MAX));
    assert_eq!(serialize_operand(&Operand::Const(0)), "$0");
    assert_eq!(serialize_operand(&Operand::Const(42)), "$42");
    assert_eq!(serialize_operand(&Operand::Const(-7)), "$-7");
    assert_eq!(serialize_operand(&Operand::Const(100)), "$100");
    assert_eq!(serialize_operand(&Operand::Const(i128::MAX)), format!("${}", i128::MAX));
    assert_eq!(serialize_operand(&Operand::Const(i128::MIN)), format!("${}", i128::MIN));
    assert_eq!(serialize_operand(&Operand::Var(Dest::Temp(3))), "%t3");
    assert_eq!(serialize_operand(&Operand::Var(Dest::Register(1))), "(1)");
}

#[test]
fn conditions_and_labels() {
    assert_eq!(serialize_condition(&Condition::Greater), "is_g");
    assert_eq!(serialize_condition(&Condition::Less), "is_l");
    assert_eq!(serialize_condition(&Condition::Equal), "is_eq");
    assert_eq!(serialize_condition(&Condition::NotEqual), "is_neq");
    assert_eq!(serialize_condition(&Condition::GreaterOrEqual), "is_geq");
    assert_eq!(serialize_condition(&Condition::LessOrEqual), "is_leq");
    assert_eq!(serialize_label(&AsmLabel(0)), "L0");
    assert_eq!(serialize_label(&AsmLabel(907)), "L907");
}

#[test]
fn instructions_as_text() {
    let t = |n| Dest::Temp(n);
    let v = |n| Operand::Var(Dest::Temp(n));
    assert_eq!(
        text_of(AbstractAssemblyInstruction::BinOp {
            op: BinaryOperator::Plus,
            dest: t(2),
            src1: v(0),
            src2: Operand::Const(5),
        }),
        "%t2 <- %t0 + $5\n"
    );
    for (op, text) in [
        (BinaryOperator::Minus, "-"),
        (BinaryOperator::Star, "*"),
        (BinaryOperator::Slash, "/"),
        (BinaryOperator::EqualEqual, "=="),
        (BinaryOperator::Greater, ">"),
        (BinaryOperator::GreaterEqual, ">="),
        (BinaryOperator::Less, "<"),
        (BinaryOperator::LessEqual, "<="),
    ] {
        assert_eq!(
            text_of(AbstractAssemblyInstruction::BinOp { op, dest: t(1), src1: v(2), src2: v(3) }),
            format!("%t1 <- %t2 {} %t3\n", text)
        );
    }
    for (op, text) in
        [(UnaryOperator::Bang, "!"), (UnaryOperator::Minus, "-"), (UnaryOperator::Tilde, "~")]
    {
        assert_eq!(
            text_of(AbstractAssemblyInstruction::UnOp { op, dest: t(1), src: v(0) }),
            format!("%t1 <- {}%t0\n", text)
        );
    }
    assert_eq!(
        text_of(AbstractAssemblyInstruction::Mov { dest: t(4), src: Operand::Const(-1) }),
        "%t4 <- $-1\n"
    );
    assert_eq!(
        text_of(AbstractAssemblyInstruction::JmpCondition {
            condition: Condition::Less,
            tgt_true: AsmLabel(1),
            tgt_false: AsmLabel(2),
        }),
        "jmp is_l L1 L2\n"
    );
    assert_eq!(
        text_of(AbstractAssemblyInstruction::Compare {
            left: v(0),
            right: Operand::Const(0),
            condition: Condition::NotEqual,
        }),
        "cmp %t0 is_neq $0\n"
    );
    assert_eq!(
        text_of(AbstractAssemblyInstruction::SetIf { dest: t(9), condition: Condition::Equal }),
        "set %t9 is_eq\n"
    );
    assert_eq!(text_of(AbstractAssemblyInstruction::Jmp(AsmLabel(3))), "jmp L3\n");
    assert_eq!(text_of(AbstractAssemblyInstruction::Lbl(AsmLabel(3))), "L3:\n");
    assert_eq!(text_of(AbstractAssemblyInstruction::Return(v(7))), "%eax <- %t7\nret\n");
    assert_eq!(text_of(AbstractAssemblyInstruction::ReturnVoid), "ret\n");
}

#[test]
fn phi_instructions_as_text() {
    let v = |n| Operand::Var(Dest::Temp(n));
    assert_eq!(
        text_of(AbstractAssemblyInstruction::Phi { dest: Dest::Temp(5), srcs: vec![] }),
        "phi %t5 \n"
    );
    assert_eq!(
        text_of(AbstractAssemblyInstruction::Phi {
            dest: Dest::Temp(5),
            srcs: vec![(v(1), AsmLabel(0))],
        }),
        "phi %t5 (%t1, L0)\n"
    );
    assert_eq!(
        text_of(AbstractAssemblyInstruction::Phi {
            dest: Dest::Temp(5),
            srcs: vec![(v(1), AsmLabel(0)), (Operand::Const(3), AsmLabel(2)), (v(4), AsmLabel(7))],
        }),
        "phi %t5 (%t1, L0), ($3, L2), (%t4, L7)\n"
    );
}

#[test]
fn a_function_as_text() {
    let body = vec![
        AbstractAssemblyInstruction::Mov { dest: Dest::Temp(0), src: Operand::Const(1) },
        AbstractAssemblyInstruction::Lbl(AsmLabel(0)),
        AbstractAssemblyInstruction::Return(Operand::Var(Dest::Temp(0))),
    ];
    assert_eq!(emit_function("main", &body), ".main\n%t0 <- $1\nL0:\n%eax <- %t0\nret\n");
    assert_eq!(emit_function("empty", &vec![]), ".empty\n");
    let mut s = "x".to_string();
    push_instruction(&mut s, &AbstractAssemblyInstruction::ReturnVoid);
    assert_eq!(s, "xret\n");
}

#[test]
fn settings_from_arguments() {
    let config = Config::default();
    assert_eq!(config.filename, None);
    assert_eq!(config.src_dir, "samples");
    let args = |list: &[&str]| list.iter().map(|s| s.to_string()).collect::<Vec<String>>();
    assert_eq!(Config::from_args(&args(&[])).filename, None);
    assert_eq!(Config::from_args(&args(&["prog"])).filename, None);
    assert_eq!(Config::from_args(&args(&["prog", "hello"])).filename, Some("hello".to_string()));
    assert_eq!(
        Config::from_args(&args(&["prog", "hello", "world"])).filename,
        Some("world".to_string())
    );
    assert_eq!(Config::from_args(&args(&["prog", "x"])).src_dir, "samples");
}

#[test]
fn plain_values() {
    assert_ne!(Target::X86, Target::M6502);
    assert_ne!(Target::AbstractAssembly, Target::X86);
    assert_eq!(BasicBlockId(3), BasicBlockId(3));
    assert_eq!(BasicBlockId(3).0, 3);
}
