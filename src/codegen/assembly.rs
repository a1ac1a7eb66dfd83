use vstd::prelude::*;

use crate::lex::Identifier;

verus! {

/// The hardware registers that instructions name.
#[derive(Clone, Copy, Debug, PartialEq, Eq, Structural)]
pub enum Register {
    Ax,
    Cx,
    Dx,
    Di,
    Si,
    R8,
    R9,
    R10,
    R11,
}

/// A concrete operand: an immediate, a register, or a stack slot given by
/// its byte offset in the frame.
#[derive(Clone, Copy, Debug, PartialEq, Eq, Structural)]
pub enum Op {
    Imm(i64),
    Register(Register),
    Stack(usize),
}

/// An operand before lowering: concrete, or a symbolic register whose
/// storage is not decided yet.
#[derive(Clone, Debug, PartialEq, Eq)]
pub enum PseudoOp {
    Normal(Op),
    PseudoRegister(Identifier),
}

#[derive(Clone, Copy, Debug, PartialEq, Eq, Structural)]
pub enum Unary {
    Complement,
    Negate,
    Not,
}

#[derive(Clone, Copy, Debug, PartialEq, Eq, Structural)]
pub enum Binary {
    Add,
    Sub,
    Mult,
    And,
    Or,
    Xor,
    ShiftLeft,
    ShiftRight,
}

#[derive(Clone, Copy, Debug, PartialEq, Eq, Structural)]
pub enum Condition {
    E,
    NE,
    L,
    LE,
    G,
    GE,
}

/// An instruction over pseudo operands.
#[derive(Clone, Debug, PartialEq, Eq)]
pub enum Pseudo {
    Mov { src: PseudoOp, dst: PseudoOp },
    Unary { operator: Unary, operand: PseudoOp },
    Binary { operator: Binary, op: PseudoOp, dst_op: PseudoOp },
    Idiv { divisor: PseudoOp },
    Cdq,
    AllocateStack(usize),
    DeallocateStack(usize),
    Push(PseudoOp),
    Call(Identifier),
    Ret,
    Cmp { left: PseudoOp, right: PseudoOp },
    Jmp(Identifier),
    JmpCC { condition: Condition, label: Identifier },
    Label(Identifier),
    SetCC { condition: Condition, op: PseudoOp },
}

/// An x86-64 instruction whose operands are all concrete.
#[derive(Clone, Debug, PartialEq, Eq)]
pub enum X86 {
    Mov { src: Op, dst: Op },
    Unary { operator: Unary, operand: Op },
    Binary { operator: Binary, op: Op, dst_op: Op },
    Idiv { divisor: Op },
    Cdq,
    AllocateStack(usize),
    DeallocateStack(usize),
    Push(Op),
    Call(Identifier),
    Ret,
    Cmp { left: Op, right: Op },
    Jmp(Identifier),
    JmpCC { condition: Condition, label: Identifier },
    Label(Identifier),
    SetCC { condition: Condition, op: Op },
}

/// A function: its name, its parameters in order, and its body.
#[derive(Clone, Debug, PartialEq, Eq)]
pub struct FunctionDefinition<I> {
    pub name: Identifier,
    pub params: Vec<Identifier>,
    pub body: Vec<I>,
}

/// A program: its functions in order.
#[derive(Clone, Debug, PartialEq, Eq)]
pub struct Program<I>(pub Vec<FunctionDefinition<I>>);

} // verus!
