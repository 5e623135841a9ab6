//! Abstract assembly: the instructions that code generation produces,
//! over an unbounded supply of temporaries.

use vstd::prelude::*;

verus! {

/// Where an instruction puts its result.
#[derive(Debug, Clone, Copy, PartialEq, Eq)]
pub enum Dest {
    /// A hardware register, by its number.
    Register(usize),
    /// A temporary, by its number.
    Temp(usize),
}

/// What an instruction reads.
#[derive(Debug, Clone, Copy, PartialEq, Eq)]
pub enum Operand {
    Const(i128),
    Var(Dest),
}

/// A place in the code that a jump may lead to.
#[derive(Debug, Clone, Copy, PartialEq, Eq)]
pub struct AsmLabel(pub usize);

/// The outcome of a comparison that an instruction asks for.
#[derive(Debug, Clone, Copy, PartialEq, Eq)]
pub enum Condition {
    Greater,
    Less,
    Equal,
    NotEqual,
    GreaterOrEqual,
    LessOrEqual,
}

/// An operator with two operands.
#[derive(Debug, Clone, Copy, PartialEq, Eq)]
pub enum BinaryOperator {
    Plus,
    Minus,
    Star,
    Slash,
    EqualEqual,
    Greater,
    GreaterEqual,
    Less,
    LessEqual,
}

/// An operator with one operand.
#[derive(Debug, Clone, Copy, PartialEq, Eq)]
pub enum UnaryOperator {
    Bang,
    Minus,
    Tilde,
}

/// An instruction of abstract assembly.
#[derive(Debug, Clone, PartialEq, Eq)]
pub enum AbstractAssemblyInstruction {
    BinOp { op: BinaryOperator, dest: Dest, src1: Operand, src2: Operand },
    UnOp { op: UnaryOperator, dest: Dest, src: Operand },
    Mov { dest: Dest, src: Operand },
    Compare { left: Operand, right: Operand, condition: Condition },
    SetIf { dest: Dest, condition: Condition },
    JmpCondition { condition: Condition, tgt_true: AsmLabel, tgt_false: AsmLabel },
    Jmp(AsmLabel),
    Lbl(AsmLabel),
    Phi { dest: Dest, srcs: Vec<(Operand, AsmLabel)> },
    Return(Operand),
    ReturnVoid,
}

/// The machine that code is generated for.
#[derive(Debug, Clone, Copy, PartialEq, Eq)]
pub enum Target {
    AbstractAssembly,
    X86,
    M6502,
}

/// The number of a basic block in a control-flow graph.
#[derive(Debug, Clone, Copy, PartialEq, Eq, Hash)]
pub struct BasicBlockId(pub usize);

} // verus!
