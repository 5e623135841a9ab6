//! Abstract assembly as text.

use vstd::prelude::*;
use crate::assembly::{
    AbstractAssemblyInstruction,
    AsmLabel,
    BinaryOperator,
    Condition,
    Dest,
    Operand,
    UnaryOperator,
};
use crate::chars::{digits_of, push_decimal, push_signed_decimal, signed_digits_of};

verus! {

/// A destination as text: `(3)` for the register 3, `%t3` for the temporary 3.
pub open spec fn dest_text(dest: Dest) -> Seq<char> {
    match dest {
        Dest::Register(reg) => seq!['('] + digits_of(reg as nat) + seq![')'],
        Dest::Temp(temp) => seq!['%', 't'] + digits_of(temp as nat),
    }
}

/// An operand as text: `$3` for the constant 3, a destination as `dest_text` writes it.
pub open spec fn operand_text(operand: Operand) -> Seq<char> {
    match operand {
        Operand::Const(value) => seq!['$'] + signed_digits_of(value as int),
        Operand::Var(dest) => dest_text(dest),
    }
}

/// A condition as text.
pub open spec fn condition_text(condition: Condition) -> Seq<char> {
    match condition {
        Condition::Greater => "is_g"@,
        Condition::Less => "is_l"@,
        Condition::Equal => "is_eq"@,
        Condition::NotEqual => "is_neq"@,
        Condition::GreaterOrEqual => "is_geq"@,
        Condition::LessOrEqual => "is_leq"@,
    }
}

/// A label as text: `L3` for the label 3.
pub open spec fn label_text(label: AsmLabel) -> Seq<char> {
    seq!['L'] + digits_of(label.0 as nat)
}

/// An operator with two operands as text.
pub open spec fn binary_operator_text(op: BinaryOperator) -> Seq<char> {
    match op {
        BinaryOperator::Plus => "+"@,
        BinaryOperator::Minus => "-"@,
        BinaryOperator::Star => "*"@,
        BinaryOperator::Slash => "/"@,
        BinaryOperator::EqualEqual => "=="@,
        BinaryOperator::Greater => ">"@,
        BinaryOperator::GreaterEqual => ">="@,
        BinaryOperator::Less => "<"@,
        BinaryOperator::LessEqual => "<="@,
    }
}

/// An operator with one operand as text.
pub open spec fn unary_operator_text(op: UnaryOperator) -> Seq<char> {
    match op {
        UnaryOperator::Bang => "!"@,
        UnaryOperator::Minus => "-"@,
        UnaryOperator::Tilde => "~"@,
    }
}

/// The sources of a phi instruction as text: `(operand, label)` for each, with `, ` between them.
pub open spec fn phi_sources_text(srcs: Seq<(Operand, AsmLabel)>) -> Seq<char>
    decreases srcs.len(),
{
    if srcs.len() == 0 {
        Seq::empty()
    } else {
        let last = seq!['('] + operand_text(srcs.last().0) + ", "@ + label_text(srcs.last().1) + seq![
            ')',
        ];
        if srcs.len() == 1 {
            last
        } else {
            phi_sources_text(srcs.drop_last()) + ", "@ + last
        }
    }
}

/// An instruction as text. Every line ends with a line feed; a return of a
/// value takes two lines, the move into `%eax` and the return.
pub open spec fn instruction_text(instruction: AbstractAssemblyInstruction) -> Seq<char> {
    match instruction {
        AbstractAssemblyInstruction::BinOp { op, dest, src1, src2 } => dest_text(dest) + " <- "@
            + operand_text(src1) + " "@ + binary_operator_text(op) + " "@ + operand_text(src2) + "\n"@,
        AbstractAssemblyInstruction::UnOp { op, dest, src } => dest_text(dest) + " <- "@
            + unary_operator_text(op) + operand_text(src) + "\n"@,
        AbstractAssemblyInstruction::Mov { dest, src } => dest_text(dest) + " <- "@ + operand_text(src)
            + "\n"@,
        AbstractAssemblyInstruction::JmpCondition { condition, tgt_true, tgt_false } => "jmp "@
            + condition_text(condition) + " "@ + label_text(tgt_true) + " "@ + label_text(tgt_false)
            + "\n"@,
        AbstractAssemblyInstruction::Compare { left, right, condition } => "cmp "@ + operand_text(left)
            + " "@ + condition_text(condition) + " "@ + operand_text(right) + "\n"@,
        AbstractAssemblyInstruction::SetIf { dest, condition } => "set "@ + dest_text(dest) + " "@
            + condition_text(condition) + "\n"@,
        AbstractAssemblyInstruction::Jmp(label) => "jmp "@ + label_text(label) + "\n"@,
        AbstractAssemblyInstruction::Lbl(label) => label_text(label) + ":\n"@,
        AbstractAssemblyInstruction::Return(operand) => "%eax <- "@ + operand_text(operand)
            + "\nret\n"@,
        AbstractAssemblyInstruction::ReturnVoid => "ret\n"@,
        AbstractAssemblyInstruction::Phi { dest, srcs } => "phi "@ + dest_text(dest) + " "@
            + phi_sources_text(srcs@) + "\n"@,
    }
}

/// The instructions of a function as text, one after the other.
pub open spec fn instructions_text(instructions: Seq<AbstractAssemblyInstruction>) -> Seq<char>
    decreases instructions.len(),
{
    if instructions.len() == 0 {
        Seq::empty()
    } else {
        instructions_text(instructions.drop_last()) + instruction_text(instructions.last())
    }
}

/// A function as text: a line with a dot and its name, then its instructions.
pub open spec fn function_text(name: Seq<char>, instructions: Seq<AbstractAssemblyInstruction>) -> Seq<
    char,
> {
    seq!['.'] + name + seq!['\n'] + instructions_text(instructions)
}

fn push_dest(s: &mut String, dest: &Dest)
    ensures
        final(s)@ == old(s)@ + dest_text(*dest),
{
    match dest {
        Dest::Register(reg) => {
            s.push('(');
            push_decimal(s, *reg as u128);
            s.push(')');
        },
        Dest::Temp(temp) => {
            s.push('%');
            s.push('t');
            push_decimal(s, *temp as u128);
        },
    }
    assert(s@ =~= old(s)@ + dest_text(*dest));
}

fn push_operand(s: &mut String, operand: &Operand)
    ensures
        final(s)@ == old(s)@ + operand_text(*operand),
{
    match operand {
        Operand::Const(value) => {
            s.push('$');
            push_signed_decimal(s, *value);
            assert(s@ =~= old(s)@ + operand_text(*operand));
        },
        Operand::Var(dest) => {
            push_dest(s, dest);
        },
    }
}

fn push_condition(s: &mut String, condition: &Condition)
    ensures
        final(s)@ == old(s)@ + condition_text(*condition),
{
    match condition {
        Condition::Greater => s.append("is_g"),
        Condition::Less => s.append("is_l"),
        Condition::Equal => s.append("is_eq"),
        Condition::NotEqual => s.append("is_neq"),
        Condition::GreaterOrEqual => s.append("is_geq"),
        Condition::LessOrEqual => s.append("is_leq"),
    }
}

fn push_label(s: &mut String, label: &AsmLabel)
    ensures
        final(s)@ == old(s)@ + label_text(*label),
{
    s.push('L');
    push_decimal(s, label.0 as u128);
    assert(s@ =~= old(s)@ + label_text(*label));
}

fn push_binary_operator(s: &mut String, op: &BinaryOperator)
    ensures
        final(s)@ == old(s)@ + binary_operator_text(*op),
{
    match op {
        BinaryOperator::Plus => s.append("+"),
        BinaryOperator::Minus => s.append("-"),
        BinaryOperator::Star => s.append("*"),
        BinaryOperator::Slash => s.append("/"),
        BinaryOperator::EqualEqual => s.append("=="),
        BinaryOperator::Greater => s.append(">"),
        BinaryOperator::GreaterEqual => s.append(">="),
        BinaryOperator::Less => s.append("<"),
        BinaryOperator::LessEqual => s.append("<="),
    }
}

fn push_unary_operator(s: &mut String, op: &UnaryOperator)
    ensures
        final(s)@ == old(s)@ + unary_operator_text(*op),
{
    match op {
        UnaryOperator::Bang => s.append("!"),
        UnaryOperator::Minus => s.append("-"),
        UnaryOperator::Tilde => s.append("~"),
    }
}

fn push_phi_sources(s: &mut String, srcs: &Vec<(Operand, AsmLabel)>)
    ensures
        final(s)@ == old(s)@ + phi_sources_text(srcs@),
{
    let mut i: usize = 0;
    assert(srcs@.subrange(0, 0) =~= Seq::<(Operand, AsmLabel)>::empty());
    assert(s@ =~= old(s)@ + phi_sources_text(srcs@.subrange(0, 0)));
    while i < srcs.len()
        invariant
            i <= srcs.len(),
            s@ == old(s)@ + phi_sources_text(srcs@.subrange(0, i as int)),
        decreases srcs.len() - i,
    {
        let ghost part = srcs@.subrange(0, i + 1);
        let ghost before = s@;
        proof {
            assert(part.drop_last() =~= srcs@.subrange(0, i as int));
            assert(part.last() == srcs@[i as int]);
        }
        if i > 0 {
            s.append(", ");
        }
        s.push('(');
        push_operand(s, &srcs[i].0);
        s.append(", ");
        push_label(s, &srcs[i].1);
        s.push(')');
        proof {
            let last = seq!['('] + operand_text(part.last().0) + ", "@ + label_text(part.last().1)
                + seq![')'];
            if i > 0 {
                assert(s@ =~= before + ", "@ + last);
                assert(s@ =~= old(s)@ + (phi_sources_text(part.drop_last()) + ", "@ + last));
            } else {
                assert(phi_sources_text(part.drop_last()) =~= Seq::<char>::empty());
                assert(s@ =~= old(s)@ + last);
            }
        }
        i += 1;
    }
    assert(srcs@.subrange(0, i as int) =~= srcs@);
}

/// A destination as text.
pub fn serialize_dest(dest: &Dest) -> (r: String)
    ensures
        r@ == dest_text(*dest),
{
    let mut s = String::new();
    push_dest(&mut s, dest);
    assert(s@ =~= dest_text(*dest));
    s
}

/// An operand as text.
pub fn serialize_operand(operand: &Operand) -> (r: String)
    ensures
        r@ == operand_text(*operand),
{
    let mut s = String::new();
    push_operand(&mut s, operand);
    assert(s@ =~= operand_text(*operand));
    s
}

/// A condition as text.
pub fn serialize_condition(condition: &Condition) -> (r: String)
    ensures
        r@ == condition_text(*condition),
{
    let mut s = String::new();
    push_condition(&mut s, condition);
    assert(s@ =~= condition_text(*condition));
    s
}

/// A label as text.
pub fn serialize_label(label: &AsmLabel) -> (r: String)
    ensures
        r@ == label_text(*label),
{
    let mut s = String::new();
    push_label(&mut s, label);
    assert(s@ =~= label_text(*label));
    s
}

/// Appends an instruction as text.
pub fn push_instruction(s: &mut String, instruction: &AbstractAssemblyInstruction)
    ensures
        final(s)@ == old(s)@ + instruction_text(*instruction),
{
    match instruction {
        AbstractAssemblyInstruction::BinOp { op, dest, src1, src2 } => {
            push_dest(s, dest);
            s.append(" <- ");
            push_operand(s, src1);
            s.append(" ");
            push_binary_operator(s, op);
            s.append(" ");
            push_operand(s, src2);
            s.append("\n");
        },
        AbstractAssemblyInstruction::UnOp { op, dest, src } => {
            push_dest(s, dest);
            s.append(" <- ");
            push_unary_operator(s, op);
            push_operand(s, src);
            s.append("\n");
        },
        AbstractAssemblyInstruction::Mov { dest, src } => {
            push_dest(s, dest);
            s.append(" <- ");
            push_operand(s, src);
            s.append("\n");
        },
        AbstractAssemblyInstruction::JmpCondition { condition, tgt_true, tgt_false } => {
            s.append("jmp ");
            push_condition(s, condition);
            s.append(" ");
            push_label(s, tgt_true);
            s.append(" ");
            push_label(s, tgt_false);
            s.append("\n");
        },
        AbstractAssemblyInstruction::Compare { left, right, condition } => {
            s.append("cmp ");
            push_operand(s, left);
            s.append(" ");
            push_condition(s, condition);
            s.append(" ");
            push_operand(s, right);
            s.append("\n");
        },
        AbstractAssemblyInstruction::SetIf { dest, condition } => {
            s.append("set ");
            push_dest(s, dest);
            s.append(" ");
            push_condition(s, condition);
            s.append("\n");
        },
        AbstractAssemblyInstruction::Jmp(label) => {
            s.append("jmp ");
            push_label(s, label);
            s.append("\n");
        },
        AbstractAssemblyInstruction::Lbl(label) => {
            push_label(s, label);
            s.append(":\n");
        },
        AbstractAssemblyInstruction::Return(operand) => {
            s.append("%eax <- ");
            push_operand(s, operand);
            s.append("\nret\n");
        },
        AbstractAssemblyInstruction::ReturnVoid => {
            s.append("ret\n");
        },
        AbstractAssemblyInstruction::Phi { dest, srcs } => {
            s.append("phi ");
            push_dest(s, dest);
            s.append(" ");
            push_phi_sources(s, srcs);
            s.append("\n");
        },
    }
    assert(s@ =~= old(s)@ + instruction_text(*instruction));
}

/// A function as text: a line with a dot and its name, then its instructions.
pub fn emit_function(name: &str, instructions: &Vec<AbstractAssemblyInstruction>) -> (r: String)
    ensures
        r@ == function_text(name@, instructions@),
{
    let mut s = String::new();
    s.push('.');
    s.append(name);
    s.push('\n');
    let ghost head = s@;
    assert(head =~= seq!['.'] + name@ + seq!['\n']);
    let mut i: usize = 0;
    assert(instructions@.subrange(0, 0) =~= Seq::<AbstractAssemblyInstruction>::empty());
    assert(s@ =~= head + instructions_text(instructions@.subrange(0, 0)));
    while i < instructions.len()
        invariant
            i <= instructions.len(),
            s@ == head + instructions_text(instructions@.subrange(0, i as int)),
        decreases instructions.len() - i,
    {
        proof {
            assert(instructions@.subrange(0, i + 1).drop_last() =~= instructions@.subrange(
                0,
                i as int,
            ));
        }
        let ghost before = s@;
        push_instruction(&mut s, &instructions[i]);
        assert(s@ =~= head + instructions_text(instructions@.subrange(0, i + 1)));
        i += 1;
    }
    assert(instructions@.subrange(0, i as int) =~= instructions@);
    s
}

} // verus!
