use codegen_c::codegen::assembly::{
    Binary, Condition, FunctionDefinition, Op, Program, Pseudo, PseudoOp, Register, Unary, X86,
};
use codegen_c::codegen::x86_pass::{fix_ast, legalize};
use codegen_c::lex::Identifier;

fn reg(name: &str) -> PseudoOp {
    PseudoOp::PseudoRegister(Identifier::new(name.as_bytes()))
}

fn imm(v: i64) -> PseudoOp {
    PseudoOp::Normal(Op::Imm(v))
}

fn function(params: usize, body: Vec<Pseudo>) -> FunctionDefinition<Pseudo> {
    FunctionDefinition {
        name: Identifier::new(b"f"),
        params: (0..params).map(|i| Identifier::new(format!("p{i}").as_bytes())).collect(),
        body,
    }
}

fn lower_one(params: usize, body: Vec<Pseudo>) -> Vec<X86> {
    let program = Program(vec![function(params, body)]);
    let mut out = fix_ast(program);
    assert_eq!(out.0.len(), 1);
    out.0.remove(0).body
}

const R10: Op = Op::Register(Register::R10);
const R11: Op = Op::Register(Register::R11);
const CX: Op = Op::Register(Register::Cx);

fn is_stack(o: &Op) -> bool {
    matches!(o, Op::Stack(_))
}

fn legal(x: &X86) -> bool {
    match x {
        X86::Mov { src, dst } => !(is_stack(src) && is_stack(dst)),
        X86::Binary { operator, op, dst_op } => {
            !(is_stack(op) && is_stack(dst_op))
                && (*operator != Binary::Mult || !is_stack(dst_op))
                && (!matches!(operator, Binary::ShiftLeft | Binary::ShiftRight)
                    || matches!(op, Op::Imm(_))
                    || *op == CX)
        }
        X86::Idiv { divisor } => !matches!(divisor, Op::Imm(_)),
        X86::Push(v) => !is_stack(v),
        X86::Cmp { left, right } => {
            !(is_stack(left) && is_stack(right)) && !matches!(right, Op::Imm(_))
        }
        _ => true,
    }
}

#[test]
fn slot_to_slot_moves_go_through_scratch() {
    let body = lower_one(
        0,
        vec![
            Pseudo::Mov { src: reg("x"), dst: reg("y") },
            Pseudo::Mov { src: reg("y"), dst: reg("x") },
        ],
    );
    assert_eq!(
        body,
        vec![
            X86::AllocateStack(16),
            X86::Mov { src: Op::Stack(4), dst: R10 },
            X86::Mov { src: R10, dst: Op::Stack(8) },
            X86::Mov { src: Op::Stack(8), dst: R10 },
            X86::Mov { src: R10, dst: Op::Stack(4) },
        ]
    );
}

#[test]
fn immediate_divisor_goes_to_scratch() {
    let body = lower_one(0, vec![Pseudo::Idiv { divisor: imm(3) }]);
    assert_eq!(body, vec![X86::Mov { src: Op::Imm(3), dst: R10 }, X86::Idiv { divisor: R10 }]);
}

#[test]
fn multiply_into_slot_goes_through_scratch() {
    let body = lower_one(
        0,
        vec![Pseudo::Binary { operator: Binary::Mult, op: imm(2), dst_op: reg("a") }],
    );
    assert_eq!(
        body,
        vec![
            X86::AllocateStack(16),
            X86::Mov { src: Op::Stack(4), dst: R11 },
            X86::Binary { operator: Binary::Mult, op: Op::Imm(2), dst_op: R11 },
            X86::Mov { src: R11, dst: Op::Stack(4) },
        ]
    );
}

#[test]
fn eight_parameters_reserve_two_words() {
    let body = lower_one(8, vec![Pseudo::Ret]);
    assert_eq!(body, vec![X86::AllocateStack(16), X86::Ret]);
    let body = lower_one(8, vec![Pseudo::Mov { src: imm(1), dst: reg("a") }, Pseudo::Ret]);
    assert_eq!(
        body,
        vec![X86::AllocateStack(32), X86::Mov { src: Op::Imm(1), dst: Op::Stack(20) }, X86::Ret]
    );
}

#[test]
fn seven_parameters_add_a_padding_word() {
    let body = lower_one(7, vec![Pseudo::Ret]);
    assert_eq!(body, vec![X86::AllocateStack(16), X86::Ret]);
    let body = lower_one(7, vec![Pseudo::Mov { src: imm(1), dst: reg("a") }]);
    assert_eq!(body[1], X86::Mov { src: Op::Imm(1), dst: Op::Stack(20) });
}

#[test]
fn no_symbols_means_no_prologue() {
    let body = lower_one(
        2,
        vec![
            Pseudo::Mov { src: imm(5), dst: PseudoOp::Normal(Op::Register(Register::Ax)) },
            Pseudo::Ret,
        ],
    );
    assert_eq!(body, vec![X86::Mov { src: Op::Imm(5), dst: Op::Register(Register::Ax) }, X86::Ret]);
}

#[test]
fn frame_size_rounds_up_to_sixteen() {
    let mut ops = Vec::new();
    for name in ["a", "b", "c", "d", "e"] {
        ops.push(Pseudo::Mov { src: imm(0), dst: reg(name) });
    }
    let body = lower_one(0, ops);
    assert_eq!(body[0], X86::AllocateStack(32));
    assert_eq!(body[5], X86::Mov { src: Op::Imm(0), dst: Op::Stack(20) });
}

#[test]
fn pushes_shift_slot_addresses_until_popped() {
    let body = lower_one(
        0,
        vec![
            Pseudo::Mov { src: imm(1), dst: reg("x") },
            Pseudo::Push(reg("x")),
            Pseudo::Push(imm(7)),
            Pseudo::Mov { src: imm(2), dst: reg("x") },
            Pseudo::Call(Identifier::new(b"g")),
            Pseudo::DeallocateStack(16),
            Pseudo::Mov { src: imm(3), dst: reg("x") },
        ],
    );
    assert_eq!(
        body,
        vec![
            X86::AllocateStack(16),
            X86::Mov { src: Op::Imm(1), dst: Op::Stack(4) },
            X86::Mov { src: Op::Stack(4), dst: R10 },
            X86::Push(R10),
            X86::Push(Op::Imm(7)),
            X86::Mov { src: Op::Imm(2), dst: Op::Stack(20) },
            X86::Call(Identifier::new(b"g")),
            X86::DeallocateStack(16),
            X86::Mov { src: Op::Imm(3), dst: Op::Stack(4) },
        ]
    );
}

#[test]
fn lowering_twice_gives_the_same_output() {
    let make = || {
        Program(vec![function(
            7,
            vec![
                Pseudo::Mov { src: reg("b"), dst: reg("a") },
                Pseudo::Binary { operator: Binary::Add, op: reg("a"), dst_op: reg("c") },
                Pseudo::Cmp { left: reg("c"), right: imm(4) },
                Pseudo::SetCC { condition: Condition::L, op: reg("b") },
            ],
        )])
    };
    assert_eq!(fix_ast(make()), fix_ast(make()));
}

#[test]
fn every_lowered_instruction_is_legal() {
    let body = lower_one(
        9,
        vec![
            Pseudo::Mov { src: reg("a"), dst: reg("b") },
            Pseudo::Binary { operator: Binary::Sub, op: reg("a"), dst_op: reg("b") },
            Pseudo::Binary { operator: Binary::Mult, op: reg("a"), dst_op: reg("b") },
            Pseudo::Binary { operator: Binary::ShiftLeft, op: reg("a"), dst_op: reg("b") },
            Pseudo::Binary { operator: Binary::ShiftRight, op: imm(2), dst_op: reg("b") },
            Pseudo::Idiv { divisor: imm(9) },
            Pseudo::Idiv { divisor: reg("a") },
            Pseudo::Push(reg("a")),
            Pseudo::Cmp { left: reg("a"), right: reg("b") },
            Pseudo::Cmp { left: reg("a"), right: imm(0) },
            Pseudo::Unary { operator: Unary::Negate, operand: reg("c") },
            Pseudo::JmpCC { condition: Condition::E, label: Identifier::new(b"l") },
            Pseudo::Label(Identifier::new(b"l")),
            Pseudo::Jmp(Identifier::new(b"l")),
            Pseudo::Cdq,
            Pseudo::Ret,
        ],
    );
    assert!(body.iter().all(legal));
    assert_eq!(body[0], X86::AllocateStack(48));
}

#[test]
fn shift_by_slot_uses_count_register() {
    let mut out = Vec::new();
    legalize(
        X86::Binary { operator: Binary::ShiftLeft, op: Op::Stack(4), dst_op: Op::Stack(8) },
        &mut out,
    );
    assert_eq!(
        out,
        vec![
            X86::Mov { src: Op::Stack(4), dst: CX },
            X86::Binary { operator: Binary::ShiftLeft, op: CX, dst_op: Op::Stack(8) },
        ]
    );
}

#[test]
fn compare_against_immediate_uses_second_scratch() {
    let mut out = Vec::new();
    legalize(X86::Cmp { left: Op::Stack(4), right: Op::Imm(5) }, &mut out);
    assert_eq!(
        out,
        vec![X86::Mov { src: Op::Imm(5), dst: R11 }, X86::Cmp { left: Op::Stack(4), right: R11 }]
    );
}

#[test]
fn add_of_two_slots_goes_through_scratch() {
    let mut out = vec![X86::Ret];
    legalize(
        X86::Binary { operator: Binary::Add, op: Op::Stack(4), dst_op: Op::Stack(8) },
        &mut out,
    );
    assert_eq!(
        out,
        vec![
            X86::Ret,
            X86::Mov { src: Op::Stack(4), dst: R10 },
            X86::Binary { operator: Binary::Add, op: R10, dst_op: Op::Stack(8) },
        ]
    );
}

fn key(o: &Op) -> String {
    match o {
        Op::Stack(n) => format!("stack{n}"),
        Op::Register(r) => format!("{r:?}"),
        Op::Imm(_) => panic!("an immediate is no location"),
    }
}

fn read(state: &std::collections::HashMap<String, i64>, o: &Op) -> i64 {
    match o {
        Op::Imm(v) => *v,
        other => *state.get(&key(other)).unwrap_or(&0),
    }
}

fn run(body: &[X86], state: &mut std::collections::HashMap<String, i64>) {
    for x in body {
        match x {
            X86::Mov { src, dst } => {
                let v = read(state, src);
                state.insert(key(dst), v);
            }
            X86::Binary { operator, op, dst_op } => {
                let (a, b) = (read(state, dst_op), read(state, op));
                let v = match operator {
                    Binary::Add => a + b,
                    Binary::Sub => a - b,
                    Binary::Mult => a * b,
                    _ => panic!("not simulated"),
                };
                state.insert(key(dst_op), v);
            }
            X86::AllocateStack(_) => {}
            _ => panic!("not simulated"),
        }
    }
}

#[test]
fn doubling_a_slot_doubles_its_value() {
    let body = lower_one(
        0,
        vec![
            Pseudo::Mov { src: imm(21), dst: reg("a") },
            Pseudo::Binary { operator: Binary::Mult, op: imm(2), dst_op: reg("a") },
        ],
    );
    assert_eq!(body.len(), 5);
    let mut state = std::collections::HashMap::new();
    run(&body, &mut state);
    assert_eq!(state["stack4"], 42);
}

#[test]
fn swapping_moves_keep_values() {
    let body = lower_one(
        0,
        vec![
            Pseudo::Mov { src: imm(5), dst: reg("x") },
            Pseudo::Mov { src: reg("x"), dst: reg("y") },
            Pseudo::Mov { src: reg("y"), dst: reg("x") },
        ],
    );
    let mut state = std::collections::HashMap::new();
    run(&body, &mut state);
    assert_eq!(state["stack4"], 5);
    assert_eq!(state["stack8"], 5);
}
