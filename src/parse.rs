use vstd::prelude::*;

use crate::lex::Identifier;

verus! {

/// A program: one function.
#[derive(Debug, PartialEq, Eq)]
pub struct Program(pub Function);

#[derive(Debug, PartialEq, Eq)]
pub struct Function {
    pub name: Identifier,
    pub body: Vec<BlockItem>,
}

/// An item of a block: a statement or a declaration.
#[derive(Debug, PartialEq, Eq)]
pub enum BlockItem {
    S(Statement),
    D(Declaration),
}

#[derive(Debug, PartialEq, Eq)]
pub struct Declaration {
    pub name: Identifier,
    pub init: Option<Expression>,
}

#[derive(Debug, PartialEq, Eq)]
pub enum Expression {
    Constant(u64),
    Var(Identifier),
    Assignment(Box<Expression>, Box<Expression>),
}

/// A label: on its own (`l:` at the end of a block), or in front of a
/// statement.
#[derive(Debug, PartialEq, Eq)]
pub enum Label {
    C23(Identifier),
    C17 { label: Identifier, body: Box<Statement> },
}

#[derive(Debug, PartialEq, Eq)]
pub enum Statement {
    Ret(Expression),
    Exp(Expression),
    If { condition: Expression, then: Box<Statement>, otherwise: Option<Box<Statement>> },
    Goto(Identifier),
    Label(Label),
    Null,
}

} // verus!
