use codegen_c::lex::Identifier;
use codegen_c::parse::{BlockItem, Declaration, Expression, Function, Label, Program, Statement};
use codegen_c::semantics::check_labels::{check, Error};

fn id(name: &str) -> Identifier {
    Identifier::new(name.as_bytes())
}

fn program(body: Vec<BlockItem>) -> Program {
    Program(Function { name: id("main"), body })
}

fn label(name: &str, body: Statement) -> Statement {
    Statement::Label(Label::C17 { label: id(name), body: Box::new(body) })
}

fn goto(name: &str) -> BlockItem {
    BlockItem::S(Statement::Goto(id(name)))
}

#[test]
fn defined_gotos_pass() {
    let p = program(vec![
        BlockItem::D(Declaration { name: id("x"), init: Some(Expression::Constant(1)) }),
        goto("end"),
        BlockItem::S(label("end", Statement::Ret(Expression::Var(id("x"))))),
    ]);
    assert_eq!(check(&p, &vec![id("x")]), Ok(()));
}

#[test]
fn undefined_goto_fails() {
    let p = program(vec![goto("nowhere"), BlockItem::S(Statement::Null)]);
    assert_eq!(check(&p, &vec![]), Err(Error::UndefinedLabel));
}

#[test]
fn label_defined_twice_fails() {
    let p = program(vec![
        BlockItem::S(label("a", Statement::Null)),
        BlockItem::S(Statement::If {
            condition: Expression::Constant(1),
            then: Box::new(Statement::Null),
            otherwise: Some(Box::new(Statement::Label(Label::C23(id("a"))))),
        }),
    ]);
    assert_eq!(check(&p, &vec![]), Err(Error::RedefinedLabel));
}

#[test]
fn label_named_like_a_variable_fails() {
    let p = program(vec![goto("missing"), BlockItem::S(label("x", Statement::Null))]);
    assert_eq!(check(&p, &vec![id("x")]), Err(Error::ClashedLabel));
}

#[test]
fn nested_labels_count() {
    let p = program(vec![
        BlockItem::S(Statement::If {
            condition: Expression::Constant(0),
            then: Box::new(label("outer", label("inner", Statement::Goto(id("outer"))))),
            otherwise: None,
        }),
        goto("inner"),
    ]);
    assert_eq!(check(&p, &vec![]), Ok(()));
}
