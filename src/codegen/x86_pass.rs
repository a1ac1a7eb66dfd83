//! Lowering of pseudo-assembly to x86-64. Every symbolic register gets a
//! 4-byte stack slot on first use; each instruction has its operands
//! resolved against those slots and is then rewritten where the target's
//! addressing rules forbid its operand shapes. A prologue allocates the
//! frame, rounded up to 16 bytes.
use vstd::prelude::*;

use super::assembly::{Binary, FunctionDefinition, Op, Program, Pseudo, PseudoOp, Register, X86};
use crate::lex::Identifier;

verus! {

// ---------------------------------------------------------------------------
// The rewrite table on concrete instructions
// ---------------------------------------------------------------------------

pub open spec fn is_stack(o: Op) -> bool {
    o is Stack
}

pub open spec fn is_imm(o: Op) -> bool {
    o is Imm
}

pub open spec fn is_shift(operator: Binary) -> bool {
    operator == Binary::ShiftLeft || operator == Binary::ShiftRight
}

/// The scratch register for left-hand and source operands.
pub open spec fn scratch() -> Op {
    Op::Register(Register::R10)
}

/// The second scratch register, for destinations and compared immediates.
pub open spec fn scratch2() -> Op {
    Op::Register(Register::R11)
}

/// The register that holds a shift count that is not an immediate.
pub open spec fn count_register() -> Op {
    Op::Register(Register::Cx)
}

/// Whether an instruction respects the addressing rules of the target: at
/// most one memory operand, no immediate divisor, no multiply into memory, a
/// shift count that is an immediate or the count register, no push straight
/// from a stack slot, and no immediate on the right of a compare.
pub open spec fn legal(x: X86) -> bool {
    match x {
        X86::Mov { src, dst } => !(is_stack(src) && is_stack(dst)),
        X86::Binary { operator, op, dst_op } => {
            &&& !(is_stack(op) && is_stack(dst_op))
            &&& (operator == Binary::Mult ==> !is_stack(dst_op))
            &&& (is_shift(operator) ==> is_imm(op) || op == count_register())
        },
        X86::Idiv { divisor } => !is_imm(divisor),
        X86::Push(v) => !is_stack(v),
        X86::Cmp { left, right } => !(is_stack(left) && is_stack(right)) && !is_imm(right),
        _ => true,
    }
}

/// What a binary operation on concrete operands becomes.
pub open spec fn binary_spec(operator: Binary, op: Op, dst_op: Op) -> Seq<X86> {
    if operator == Binary::Mult {
        if is_stack(dst_op) {
            seq![
                X86::Mov { src: dst_op, dst: scratch2() },
                X86::Binary { operator, op, dst_op: scratch2() },
                X86::Mov { src: scratch2(), dst: dst_op },
            ]
        } else {
            seq![X86::Binary { operator, op, dst_op }]
        }
    } else if is_shift(operator) {
        if is_imm(op) {
            seq![X86::Binary { operator, op, dst_op }]
        } else {
            seq![
                X86::Mov { src: op, dst: count_register() },
                X86::Binary { operator, op: count_register(), dst_op },
            ]
        }
    } else if is_stack(op) && is_stack(dst_op) {
        seq![
            X86::Mov { src: op, dst: scratch() },
            X86::Binary { operator, op: scratch(), dst_op },
        ]
    } else {
        seq![X86::Binary { operator, op, dst_op }]
    }
}

/// What a concrete instruction becomes once its illegal operand shapes are
/// rewritten.
pub open spec fn legalize_spec(x: X86) -> Seq<X86> {
    match x {
        X86::Mov { src, dst } => if is_stack(src) && is_stack(dst) {
            seq![X86::Mov { src, dst: scratch() }, X86::Mov { src: scratch(), dst }]
        } else {
            seq![x]
        },
        X86::Binary { operator, op, dst_op } => binary_spec(operator, op, dst_op),
        X86::Idiv { divisor } => if is_imm(divisor) {
            seq![X86::Mov { src: divisor, dst: scratch() }, X86::Idiv { divisor: scratch() }]
        } else {
            seq![x]
        },
        X86::Push(v) => if is_stack(v) {
            seq![X86::Mov { src: v, dst: scratch() }, X86::Push(scratch())]
        } else {
            seq![x]
        },
        X86::Cmp { left, right } => if is_stack(left) && is_stack(right) {
            seq![X86::Mov { src: left, dst: scratch() }, X86::Cmp { left: scratch(), right }]
        } else if is_imm(right) {
            seq![X86::Mov { src: right, dst: scratch2() }, X86::Cmp { left, right: scratch2() }]
        } else {
            seq![x]
        },
        _ => seq![x],
    }
}

fn fix_binary(operator: Binary, op: Op, dst_op: Op, out: &mut Vec<X86>)
    ensures
        final(out)@ == old(out)@ + binary_spec(operator, op, dst_op),
{
    let r10 = Op::Register(Register::R10);
    let r11 = Op::Register(Register::R11);
    let cx = Op::Register(Register::Cx);
    let op_stack = matches!(op, Op::Stack(_));
    let dst_stack = matches!(dst_op, Op::Stack(_));
    match operator {
        Binary::Mult => {
            if dst_stack {
                out.push(X86::Mov { src: dst_op, dst: r11 });
                out.push(X86::Binary { operator, op, dst_op: r11 });
                out.push(X86::Mov { src: r11, dst: dst_op });
            } else {
                out.push(X86::Binary { operator, op, dst_op });
            }
        },
        Binary::ShiftLeft | Binary::ShiftRight => {
            if let Op::Imm(_) = op {
                out.push(X86::Binary { operator, op, dst_op });
            } else {
                out.push(X86::Mov { src: op, dst: cx });
                out.push(X86::Binary { operator, op: cx, dst_op });
            }
        },
        _ => {
            if op_stack && dst_stack {
                out.push(X86::Mov { src: op, dst: r10 });
                out.push(X86::Binary { operator, op: r10, dst_op });
            } else {
                out.push(X86::Binary { operator, op, dst_op });
            }
        },
    }
    assert(final(out)@ =~= old(out)@ + binary_spec(operator, op, dst_op));
}

/// Rewrites one concrete instruction into a legal sequence and appends it.
pub fn legalize(x: X86, out: &mut Vec<X86>)
    ensures
        final(out)@ == old(out)@ + legalize_spec(x),
{
    let r10 = Op::Register(Register::R10);
    let r11 = Op::Register(Register::R11);
    let ghost x0 = x;
    match x {
        X86::Mov { src, dst } => {
            if matches!(src, Op::Stack(_)) && matches!(dst, Op::Stack(_)) {
                out.push(X86::Mov { src, dst: r10 });
                out.push(X86::Mov { src: r10, dst });
            } else {
                out.push(X86::Mov { src, dst });
            }
        },
        X86::Binary { operator, op, dst_op } => fix_binary(operator, op, dst_op, out),
        X86::Idiv { divisor } => {
            if let Op::Imm(_) = divisor {
                out.push(X86::Mov { src: divisor, dst: r10 });
                out.push(X86::Idiv { divisor: r10 });
            } else {
                out.push(X86::Idiv { divisor });
            }
        },
        X86::Push(v) => {
            if let Op::Stack(_) = v {
                out.push(X86::Mov { src: v, dst: r10 });
                out.push(X86::Push(r10));
            } else {
                out.push(X86::Push(v));
            }
        },
        X86::Cmp { left, right } => {
            if matches!(left, Op::Stack(_)) && matches!(right, Op::Stack(_)) {
                out.push(X86::Mov { src: left, dst: r10 });
                out.push(X86::Cmp { left: r10, right });
            } else if let Op::Imm(_) = right {
                out.push(X86::Mov { src: right, dst: r11 });
                out.push(X86::Cmp { left, right: r11 });
            } else {
                out.push(X86::Cmp { left, right });
            }
        },
        other => out.push(other),
    }
    assert(final(out)@ =~= old(out)@ + legalize_spec(x0));
}

/// Every instruction that the rewrite table produces is legal.
pub proof fn legalize_yields_legal(x: X86)
    ensures
        forall|i: int| 0 <= i < legalize_spec(x).len() ==> legal(#[trigger] legalize_spec(x)[i]),
{
}


// ---------------------------------------------------------------------------
// Slot allocation
// ---------------------------------------------------------------------------

/// Where `n` stands among the names that have slots (the last match), or -1.
pub open spec fn slot_index(names: Seq<Seq<u8>>, n: Seq<u8>) -> int
    decreases names.len(),
{
    if names.len() == 0 {
        -1
    } else if names.last() == n {
        names.len() - 1
    } else {
        slot_index(names.drop_last(), n)
    }
}

/// The names with slots once `n` has been resolved: a name seen for the first
/// time gets the next slot.
pub open spec fn note(names: Seq<Seq<u8>>, n: Seq<u8>) -> Seq<Seq<u8>> {
    if slot_index(names, n) >= 0 {
        names
    } else {
        names.push(n)
    }
}

/// The frame offset of the slot of `n`: slots are 4 bytes wide and lie above
/// the `base` bytes reserved for stack-passed arguments, and the offset is
/// corrected by the `push` bytes that are outstanding.
pub open spec fn slot_offset(names: Seq<Seq<u8>>, n: Seq<u8>, base: int, push: int) -> int {
    base + 4 * (slot_index(names, n) + 1) + push
}

pub open spec fn note_op(names: Seq<Seq<u8>>, p: PseudoOp) -> Seq<Seq<u8>> {
    match p {
        PseudoOp::Normal(_) => names,
        PseudoOp::PseudoRegister(id) => note(names, id@),
    }
}

/// The concrete operand for `p`, where `names` already holds its name.
pub open spec fn resolve_spec(p: PseudoOp, names: Seq<Seq<u8>>, base: int, push: int) -> Op {
    match p {
        PseudoOp::Normal(o) => o,
        PseudoOp::PseudoRegister(id) => Op::Stack(slot_offset(names, id@, base, push) as usize),
    }
}

/// Push bytes outstanding after `words` words are popped, one at a time,
/// while a whole word is outstanding.
pub open spec fn pop_words(push: nat, words: nat) -> nat
    decreases words,
{
    if words == 0 || push < 8 {
        push
    } else {
        pop_words((push - 8) as nat, (words - 1) as nat)
    }
}

/// The frame of the function being lowered: the slots in the order of first
/// use, the bytes reserved under them for stack-passed parameters, the frame
/// size, and the bytes that pushes of a call in progress have added.
struct StackFrame {
    slots: Vec<Identifier>,
    base: usize,
    size: usize,
    push_offset: usize,
}

impl StackFrame {
    spec fn names(&self) -> Seq<Seq<u8>> {
        self.slots@.map_values(|i: Identifier| i@)
    }

    spec fn wf(&self) -> bool {
        self.size == self.base + 4 * self.slots@.len()
    }

    fn new(offset: usize) -> (r: Self)
        ensures
            r.wf(),
            r.names() == Seq::<Seq<u8>>::empty(),
            r.base == offset,
            r.size == offset,
            r.push_offset == 0,
    {
        let r = StackFrame { slots: Vec::new(), base: offset, size: offset, push_offset: 0 };
        assert(r.names() =~= Seq::<Seq<u8>>::empty());
        r
    }

    fn record_push(&mut self)
        requires
            old(self).push_offset + 8 <= usize::MAX,
        ensures
            *final(self) == (StackFrame { push_offset: (old(self).push_offset + 8) as usize, ..*old(self) }),
    {
        self.push_offset = self.push_offset + 8;
    }

    fn record_pop(&mut self)
        requires
            old(self).push_offset >= 8,
        ensures
            *final(self) == (StackFrame { push_offset: (old(self).push_offset - 8) as usize, ..*old(self) }),
    {
        self.push_offset = self.push_offset - 8;
    }

    /// The slot that `name` already has, searched from the most recent.
    fn find(&self, name: &Identifier) -> (r: Option<usize>)
        ensures
            r is None ==> slot_index(self.names(), name@) == -1,
            r matches Some(k) ==> k as int == slot_index(self.names(), name@),
    {
        let mut i: usize = self.slots.len();
        assert(self.names().subrange(0, i as int) =~= self.names());
        while i > 0
            invariant
                i <= self.slots@.len(),
                slot_index(self.names(), name@) == slot_index(self.names().subrange(0, i as int), name@),
            decreases i,
        {
            let ghost sub = self.names().subrange(0, i as int);
            assert(sub.drop_last() =~= self.names().subrange(0, i - 1));
            if self.slots[i - 1].same(name) {
                return Some(i - 1);
            }
            i = i - 1;
        }
        assert(self.names().subrange(0, 0) =~= Seq::<Seq<u8>>::empty());
        None
    }

    /// The offset of the slot of `ident`, which gets the next slot if it has
    /// none yet.
    fn get(&mut self, ident: Identifier) -> (r: usize)
        requires
            old(self).wf(),
            old(self).size + 4 + old(self).push_offset <= usize::MAX,
        ensures
            final(self).wf(),
            final(self).names() == note(old(self).names(), ident@),
            final(self).base == old(self).base,
            final(self).push_offset == old(self).push_offset,
            final(self).size <= old(self).size + 4,
            r as int == slot_offset(final(self).names(), ident@, old(self).base as int, old(self).push_offset as int),
    {
        proof {
            lemma_slot_index_range(self.names(), ident@);
        }
        match self.find(&ident) {
            Some(k) => self.base + 4 * (k + 1) + self.push_offset,
            None => {
                let ghost names0 = self.names();
                self.size = self.size + 4;
                self.slots.push(ident);
                assert(self.names() =~= names0.push(ident@));
                assert(self.names().drop_last() =~= names0);
                self.size + self.push_offset
            },
        }
    }

    fn fix_operand(&mut self, operand: PseudoOp) -> (r: Op)
        requires
            old(self).wf(),
            old(self).size + 4 + old(self).push_offset <= usize::MAX,
        ensures
            final(self).wf(),
            final(self).names() == note_op(old(self).names(), operand),
            final(self).base == old(self).base,
            final(self).push_offset == old(self).push_offset,
            final(self).size <= old(self).size + 4,
            r == resolve_spec(operand, final(self).names(), old(self).base as int, old(self).push_offset as int),
    {
        match operand {
            PseudoOp::Normal(o) => o,
            PseudoOp::PseudoRegister(name) => Op::Stack(self.get(name)),
        }
    }

    /// Pops the words of a `bytes`-long stack release that pushes account for.
    fn release(&mut self, bytes: usize)
        requires
            old(self).wf(),
        ensures
            final(self).wf(),
            final(self).names() == old(self).names(),
            final(self).base == old(self).base,
            final(self).size == old(self).size,
            final(self).push_offset == pop_words(old(self).push_offset as nat, (bytes / 8) as nat),
    {
        let mut words: usize = bytes / 8;
        while words > 0 && self.push_offset >= 8
            invariant
                self.wf(),
                self.names() == old(self).names(),
                self.base == old(self).base,
                self.size == old(self).size,
                pop_words(self.push_offset as nat, words as nat) == pop_words(
                    old(self).push_offset as nat,
                    (bytes / 8) as nat,
                ),
            decreases words,
        {
            self.record_pop();
            words = words - 1;
        }
    }

    fn rounded_size(&self) -> (r: usize)
        requires
            self.size + 15 <= usize::MAX,
        ensures
            r as int == round16(self.size as int),
    {
        (self.size + 15) / 16 * 16
    }
}

/// `n` rounded up to a multiple of 16.
pub open spec fn round16(n: int) -> int {
    (n + 15) / 16 * 16
}

proof fn lemma_slot_index_range(names: Seq<Seq<u8>>, n: Seq<u8>)
    ensures
        -1 <= slot_index(names, n) < names.len(),
        slot_index(names, n) >= 0 ==> names[slot_index(names, n)] == n,
    decreases names.len(),
{
    if names.len() > 0 && names.last() != n {
        lemma_slot_index_range(names.drop_last(), n);
    }
}


proof fn lemma_pop_words_le(push: nat, words: nat)
    ensures
        pop_words(push, words) <= push,
    decreases words,
{
    if words > 0 && push >= 8 {
        lemma_pop_words_le((push - 8) as nat, (words - 1) as nat);
    }
}

// ---------------------------------------------------------------------------
// Lowering one instruction
// ---------------------------------------------------------------------------

/// The names with slots after the operands of `ins` are resolved, in the
/// order in which they are read: source before destination, left before
/// right.
pub open spec fn names_after(ins: Pseudo, names: Seq<Seq<u8>>) -> Seq<Seq<u8>> {
    match ins {
        Pseudo::Mov { src, dst } => note_op(note_op(names, src), dst),
        Pseudo::Unary { operand, .. } => note_op(names, operand),
        Pseudo::Binary { op, dst_op, .. } => note_op(note_op(names, op), dst_op),
        Pseudo::Idiv { divisor } => note_op(names, divisor),
        Pseudo::Push(v) => note_op(names, v),
        Pseudo::Cmp { left, right } => note_op(note_op(names, left), right),
        Pseudo::SetCC { op, .. } => note_op(names, op),
        _ => names,
    }
}

/// Push bytes outstanding after `ins`: a push adds a word, a stack release
/// pops the words that pushes account for.
pub open spec fn push_after(ins: Pseudo, push: nat) -> nat {
    match ins {
        Pseudo::Push(_) => push + 8,
        Pseudo::DeallocateStack(bytes) => pop_words(push, (bytes / 8) as nat),
        _ => push,
    }
}

/// `ins` with each operand resolved against the slots, before any rewrite.
pub open spec fn resolve_instr(ins: Pseudo, names: Seq<Seq<u8>>, base: int, push: int) -> X86 {
    match ins {
        Pseudo::Mov { src, dst } => {
            let n1 = note_op(names, src);
            let n2 = note_op(n1, dst);
            X86::Mov { src: resolve_spec(src, n1, base, push), dst: resolve_spec(dst, n2, base, push) }
        },
        Pseudo::Unary { operator, operand } => X86::Unary {
            operator,
            operand: resolve_spec(operand, note_op(names, operand), base, push),
        },
        Pseudo::Binary { operator, op, dst_op } => {
            let n1 = note_op(names, op);
            let n2 = note_op(n1, dst_op);
            X86::Binary {
                operator,
                op: resolve_spec(op, n1, base, push),
                dst_op: resolve_spec(dst_op, n2, base, push),
            }
        },
        Pseudo::Idiv { divisor } => X86::Idiv {
            divisor: resolve_spec(divisor, note_op(names, divisor), base, push),
        },
        Pseudo::Cdq => X86::Cdq,
        Pseudo::AllocateStack(n) => X86::AllocateStack(n),
        Pseudo::DeallocateStack(n) => X86::DeallocateStack(n),
        Pseudo::Push(v) => X86::Push(resolve_spec(v, note_op(names, v), base, push)),
        Pseudo::Call(f) => X86::Call(f),
        Pseudo::Ret => X86::Ret,
        Pseudo::Cmp { left, right } => {
            let n1 = note_op(names, left);
            let n2 = note_op(n1, right);
            X86::Cmp { left: resolve_spec(left, n1, base, push), right: resolve_spec(right, n2, base, push) }
        },
        Pseudo::Jmp(l) => X86::Jmp(l),
        Pseudo::JmpCC { condition, label } => X86::JmpCC { condition, label },
        Pseudo::Label(l) => X86::Label(l),
        Pseudo::SetCC { condition, op } => X86::SetCC {
            condition,
            op: resolve_spec(op, note_op(names, op), base, push),
        },
    }
}

/// The real instructions that `ins` becomes.
pub open spec fn lower_instr(ins: Pseudo, names: Seq<Seq<u8>>, base: int, push: int) -> Seq<X86> {
    legalize_spec(resolve_instr(ins, names, base, push))
}

fn fix_instruction(op: Pseudo, stack_frame: &mut StackFrame, vec: &mut Vec<X86>)
    requires
        old(stack_frame).wf(),
        old(stack_frame).size + 8 + old(stack_frame).push_offset + 8 <= usize::MAX,
    ensures
        final(stack_frame).wf(),
        final(stack_frame).names() == names_after(op, old(stack_frame).names()),
        final(stack_frame).base == old(stack_frame).base,
        final(stack_frame).push_offset as nat == push_after(op, old(stack_frame).push_offset as nat),
        final(stack_frame).size <= old(stack_frame).size + 8,
        final(vec)@ == old(vec)@ + lower_instr(
            op,
            old(stack_frame).names(),
            old(stack_frame).base as int,
            old(stack_frame).push_offset as int,
        ),
{
    let x = match op {
        Pseudo::Mov { src, dst } => {
            let src = stack_frame.fix_operand(src);
            let dst = stack_frame.fix_operand(dst);
            X86::Mov { src, dst }
        },
        Pseudo::Unary { operator, operand } => {
            let operand = stack_frame.fix_operand(operand);
            X86::Unary { operator, operand }
        },
        Pseudo::Binary { operator, op, dst_op } => {
            let op = stack_frame.fix_operand(op);
            let dst_op = stack_frame.fix_operand(dst_op);
            X86::Binary { operator, op, dst_op }
        },
        Pseudo::Idiv { divisor } => {
            let divisor = stack_frame.fix_operand(divisor);
            X86::Idiv { divisor }
        },
        Pseudo::Cdq => X86::Cdq,
        Pseudo::AllocateStack(n) => X86::AllocateStack(n),
        Pseudo::DeallocateStack(n) => {
            stack_frame.release(n);
            X86::DeallocateStack(n)
        },
        Pseudo::Push(v) => {
            let v = stack_frame.fix_operand(v);
            stack_frame.record_push();
            X86::Push(v)
        },
        Pseudo::Call(f) => X86::Call(f),
        Pseudo::Ret => X86::Ret,
        Pseudo::Cmp { left, right } => {
            let left = stack_frame.fix_operand(left);
            let right = stack_frame.fix_operand(right);
            X86::Cmp { left, right }
        },
        Pseudo::Jmp(l) => X86::Jmp(l),
        Pseudo::JmpCC { condition, label } => X86::JmpCC { condition, label },
        Pseudo::Label(l) => X86::Label(l),
        Pseudo::SetCC { condition, op } => {
            let op = stack_frame.fix_operand(op);
            X86::SetCC { condition, op }
        },
    };
    legalize(x, vec);
}


// ---------------------------------------------------------------------------
// Lowering functions and programs
// ---------------------------------------------------------------------------

/// The real instructions for `body`, lowered in order from the given slots
/// and outstanding push bytes.
pub open spec fn lower_body(body: Seq<Pseudo>, names: Seq<Seq<u8>>, base: int, push: nat) -> Seq<X86>
    decreases body.len(),
{
    if body.len() == 0 {
        seq![]
    } else {
        lower_instr(body[0], names, base, push as int) + lower_body(
            body.drop_first(),
            names_after(body[0], names),
            base,
            push_after(body[0], push),
        )
    }
}

/// The names that have slots once `body` has been lowered.
pub open spec fn names_after_body(body: Seq<Pseudo>, names: Seq<Seq<u8>>) -> Seq<Seq<u8>>
    decreases body.len(),
{
    if body.len() == 0 {
        names
    } else {
        names_after_body(body.drop_first(), names_after(body[0], names))
    }
}

/// Bytes of the parameters that do not fit in the six argument registers.
pub open spec fn arg_bytes(params: int) -> int {
    if params <= 6 {
        0
    } else {
        (params - 6) * 8
    }
}

/// A word of padding when an odd number of parameters is passed on the stack.
pub open spec fn padding_bytes(params: int) -> int {
    if params > 6 && params % 2 != 0 {
        8
    } else {
        0
    }
}

/// The bytes reserved under the slots for stack-passed parameters.
pub open spec fn frame_base(params: int) -> int {
    arg_bytes(params) + padding_bytes(params)
}

/// The frame size once the body is lowered: the reserved base and a 4-byte
/// slot for each distinct symbolic register.
pub open spec fn frame_size(f: FunctionDefinition<Pseudo>) -> int {
    frame_base(f.params.len() as int) + 4 * names_after_body(f.body@, seq![]).len()
}

/// The lowered body of `f`: a prologue that allocates the frame, rounded up
/// to 16 bytes, and left out when the frame is empty; then the body.
pub open spec fn lower_function_body(f: FunctionDefinition<Pseudo>) -> Seq<X86> {
    let body = lower_body(f.body@, seq![], frame_base(f.params.len() as int), 0);
    if frame_size(f) == 0 {
        body
    } else {
        seq![X86::AllocateStack(round16(frame_size(f)) as usize)] + body
    }
}

/// Whether the offsets that lowering `f` computes fit in a `usize`.
pub open spec fn fits(f: FunctionDefinition<Pseudo>) -> bool {
    8 * f.params.len() + 16 * f.body.len() + 64 <= usize::MAX
}

/// Whether `g` is `f` lowered.
pub open spec fn lowered(f: FunctionDefinition<Pseudo>, g: FunctionDefinition<X86>) -> bool {
    &&& g.name == f.name
    &&& g.params == f.params
    &&& g.body@ == lower_function_body(f)
}

fn convert_function(f: FunctionDefinition<Pseudo>) -> (r: FunctionDefinition<X86>)
    requires
        fits(f),
    ensures
        lowered(f, r),
{
    let ghost f0 = f;
    let FunctionDefinition { name, params, body } = f;
    let n = params.len();
    let arg_bytes: usize = if n <= 6 {
        0
    } else {
        (n - 6) * 8
    };
    let padding_bytes: usize = if n > 6 && n % 2 != 0 {
        8
    } else {
        0
    };
    let mut stack_frame = StackFrame::new(arg_bytes + padding_bytes);
    let ghost base = stack_frame.base as int;
    let ghost ops = body@;
    let ghost len = body@.len();
    let mut out: Vec<X86> = Vec::new();
    assert(ops.skip(0) =~= ops);
    for op in it: body.into_iter()
        invariant
            it.seq() == ops,
            ops.len() == len,
            8 * n + 16 * len + 64 <= usize::MAX,
            base == frame_base(n as int),
            base <= 8 * n,
            stack_frame.wf(),
            stack_frame.base == base,
            stack_frame.size <= base + 8 * it.index(),
            stack_frame.push_offset <= 8 * it.index(),
            lower_body(ops, seq![], base, 0) == out@ + lower_body(
                ops.skip(it.index() as int),
                stack_frame.names(),
                base,
                stack_frame.push_offset as nat,
            ),
            names_after_body(ops, seq![]) == names_after_body(
                ops.skip(it.index() as int),
                stack_frame.names(),
            ),
    {
        let ghost i = it.index() as int;
        let ghost names0 = stack_frame.names();
        let ghost push0 = stack_frame.push_offset as nat;
        let ghost out0 = out@;
        assert(ops.skip(i).drop_first() =~= ops.skip(i + 1));
        assert(ops.skip(i)[0] == op);
        let ghost op0 = op;
        fix_instruction(op, &mut stack_frame, &mut out);
        proof {
            let rest = lower_body(ops.skip(i + 1), stack_frame.names(), base, stack_frame.push_offset as nat);
            assert(out0 + (lower_instr(op0, names0, base, push0 as int) + rest) =~= out@ + rest);
            if let Pseudo::DeallocateStack(bytes) = op0 {
                lemma_pop_words_le(push0, (bytes / 8) as nat);
            }
        }
    }
    assert(ops.skip(len as int) =~= Seq::<Pseudo>::empty());
    let mut out = out;
    if stack_frame.size != 0 {
        let prologue = X86::AllocateStack(stack_frame.rounded_size());
        out.insert(0, prologue);
        assert(out@ =~= seq![prologue] + lower_body(ops, seq![], base, 0));
    }
    FunctionDefinition { name, params, body: out }
}

/// Lowers every function of `program`.
pub fn fix_ast(program: Program<Pseudo>) -> (r: Program<X86>)
    requires
        forall|i: int| 0 <= i < program.0@.len() ==> fits(#[trigger] program.0@[i]),
    ensures
        r.0@.len() == program.0@.len(),
        forall|i: int| 0 <= i < program.0@.len() ==> lowered(program.0@[i], #[trigger] r.0@[i]),
{
    let ghost fs = program.0@;
    let mut functions: Vec<FunctionDefinition<X86>> = Vec::new();
    for function in it: program.0.into_iter()
        invariant
            it.seq() == fs,
            forall|i: int| 0 <= i < fs.len() ==> fits(#[trigger] fs[i]),
            functions@.len() == it.index(),
            forall|i: int| 0 <= i < it.index() ==> lowered(fs[i], #[trigger] functions@[i]),
    {
        let function = convert_function(function);
        functions.push(function);
    }
    Program(functions)
}


// ---------------------------------------------------------------------------
// Laws of the pass
// ---------------------------------------------------------------------------

proof fn lemma_not_found(names: Seq<Seq<u8>>, n: Seq<u8>)
    requires
        slot_index(names, n) == -1,
    ensures
        !names.contains(n),
    decreases names.len(),
{
    if names.len() > 0 {
        lemma_not_found(names.drop_last(), n);
        assert(names =~= names.drop_last().push(names.last()));
        assert forall|i: int| 0 <= i < names.len() implies names[i] != n by {
            if i < names.len() - 1 {
                assert(names[i] == names.drop_last()[i]);
            }
        }
    }
}

proof fn lemma_note_op(names: Seq<Seq<u8>>, p: PseudoOp)
    ensures
        names.no_duplicates() ==> note_op(names, p).no_duplicates(),
        note_op(names, p).len() <= names.len() + 1,
        !(p is PseudoRegister) ==> note_op(names, p) == names,
{
    if let PseudoOp::PseudoRegister(id) = p {
        if slot_index(names, id@) < 0 {
            lemma_slot_index_range(names, id@);
            lemma_not_found(names, id@);
        }
    }
}

/// Whether an operand of `ins` is a symbolic register.
pub open spec fn uses_symbol(ins: Pseudo) -> bool {
    match ins {
        Pseudo::Mov { src, dst } => src is PseudoRegister || dst is PseudoRegister,
        Pseudo::Unary { operand, .. } => operand is PseudoRegister,
        Pseudo::Binary { op, dst_op, .. } => op is PseudoRegister || dst_op is PseudoRegister,
        Pseudo::Idiv { divisor } => divisor is PseudoRegister,
        Pseudo::Push(v) => v is PseudoRegister,
        Pseudo::Cmp { left, right } => left is PseudoRegister || right is PseudoRegister,
        Pseudo::SetCC { op, .. } => op is PseudoRegister,
        _ => false,
    }
}

proof fn lemma_names_after(ins: Pseudo, names: Seq<Seq<u8>>)
    ensures
        names.no_duplicates() ==> names_after(ins, names).no_duplicates(),
        names_after(ins, names).len() <= names.len() + 2,
        !uses_symbol(ins) ==> names_after(ins, names) == names,
{
    match ins {
        Pseudo::Mov { src: a, dst: b } | Pseudo::Binary { op: a, dst_op: b, .. } | Pseudo::Cmp {
            left: a,
            right: b,
        } => {
            lemma_note_op(names, a);
            lemma_note_op(note_op(names, a), b);
        },
        Pseudo::Unary { operand: a, .. } | Pseudo::Idiv { divisor: a } | Pseudo::Push(a)
        | Pseudo::SetCC { op: a, .. } => {
            lemma_note_op(names, a);
        },
        _ => {},
    }
}

proof fn lemma_names_after_body(body: Seq<Pseudo>, names: Seq<Seq<u8>>)
    ensures
        names.no_duplicates() ==> names_after_body(body, names).no_duplicates(),
        names_after_body(body, names).len() <= names.len() + 2 * body.len(),
        (forall|i: int| 0 <= i < body.len() ==> !uses_symbol(#[trigger] body[i]))
            ==> names_after_body(body, names) == names,
    decreases body.len(),
{
    if body.len() > 0 {
        lemma_names_after(body[0], names);
        lemma_names_after_body(body.drop_first(), names_after(body[0], names));
        if forall|i: int| 0 <= i < body.len() ==> !uses_symbol(#[trigger] body[i]) {
            assert forall|i: int| 0 <= i < body.drop_first().len() implies !uses_symbol(
                #[trigger] body.drop_first()[i],
            ) by {
                assert(body.drop_first()[i] == body[i + 1]);
            }
        }
    }
}

/// Lowering is deterministic, and so is the frame layout: two lowerings of
/// one function give the same instructions, and each symbolic register gets
/// exactly one slot, in the order in which the body first uses it.
pub proof fn lowering_is_deterministic(
    f: FunctionDefinition<Pseudo>,
    g1: FunctionDefinition<X86>,
    g2: FunctionDefinition<X86>,
)
    requires
        lowered(f, g1),
        lowered(f, g2),
    ensures
        g1.body@ == g2.body@,
        names_after_body(f.body@, seq![]).no_duplicates(),
{
    lemma_names_after_body(f.body@, seq![]);
}

proof fn lemma_lower_body_legal(body: Seq<Pseudo>, names: Seq<Seq<u8>>, base: int, push: nat)
    ensures
        forall|i: int|
            0 <= i < lower_body(body, names, base, push).len() ==> legal(
                #[trigger] lower_body(body, names, base, push)[i],
            ),
    decreases body.len(),
{
    if body.len() > 0 {
        let head = lower_instr(body[0], names, base, push as int);
        let rest = lower_body(
            body.drop_first(),
            names_after(body[0], names),
            base,
            push_after(body[0], push),
        );
        legalize_yields_legal(resolve_instr(body[0], names, base, push as int));
        lemma_lower_body_legal(body.drop_first(), names_after(body[0], names), base, push_after(body[0], push));
        assert forall|i: int| 0 <= i < (head + rest).len() implies legal(#[trigger] (head + rest)[i]) by {
            if i >= head.len() {
                assert((head + rest)[i] == rest[i - head.len()]);
            }
        }
    }
}

/// No illegal operand shape survives lowering: every instruction of a
/// lowered function has at most one memory operand, divides by no immediate,
/// multiplies into no memory, shifts by an immediate or the count register,
/// pushes no stack slot, and compares against no immediate on the right.
pub proof fn lowered_code_is_legal(f: FunctionDefinition<Pseudo>, g: FunctionDefinition<X86>)
    requires
        lowered(f, g),
    ensures
        forall|i: int| 0 <= i < g.body@.len() ==> legal(#[trigger] g.body@[i]),
{
    let body = lower_body(f.body@, seq![], frame_base(f.params.len() as int), 0);
    lemma_lower_body_legal(f.body@, seq![], frame_base(f.params.len() as int), 0);
    if frame_size(f) != 0 {
        let pro = seq![X86::AllocateStack(round16(frame_size(f)) as usize)];
        assert forall|i: int| 0 <= i < (pro + body).len() implies legal(#[trigger] (pro + body)[i]) by {
            if i >= 1 {
                assert((pro + body)[i] == body[i - 1]);
            }
        }
    }
}

/// The bytes reserved for stack-passed parameters keep 16-byte alignment.
pub proof fn frame_base_is_aligned(params: int)
    ensures
        frame_base(params) % 16 == 0,
        frame_base(params) == arg_bytes(params) + padding_bytes(params),
        params > 6 ==> arg_bytes(params) == 8 * (params - 6),
{
}

/// The prologue of a lowered function allocates a multiple of 16 bytes that
/// covers the whole frame; a function whose frame is empty has no prologue.
pub proof fn prologue_is_aligned(f: FunctionDefinition<Pseudo>, g: FunctionDefinition<X86>)
    requires
        lowered(f, g),
        fits(f),
    ensures
        frame_size(f) == 0 ==> g.body@ == lower_body(f.body@, seq![], 0, 0),
        frame_size(f) != 0 ==> g.body@[0] == X86::AllocateStack(round16(frame_size(f)) as usize),
        round16(frame_size(f)) % 16 == 0,
        frame_size(f) <= round16(frame_size(f)) < frame_size(f) + 16,
        round16(frame_size(f)) <= usize::MAX,
{
    lemma_names_after_body(f.body@, seq![]);
    let s = frame_size(f);
    assert(s >= 0);
    assert((s + 15) / 16 * 16 % 16 == 0) by (nonlinear_arith);
    assert(s <= (s + 15) / 16 * 16 < s + 16) by (nonlinear_arith)
        requires s >= 0;
}

proof fn lemma_lower_body_allocates_nothing(body: Seq<Pseudo>, names: Seq<Seq<u8>>, base: int, push: nat)
    requires
        forall|i: int| 0 <= i < body.len() ==> !(#[trigger] body[i] is AllocateStack),
    ensures
        forall|i: int|
            0 <= i < lower_body(body, names, base, push).len() ==> !(#[trigger] lower_body(
                body,
                names,
                base,
                push,
            )[i] is AllocateStack),
    decreases body.len(),
{
    if body.len() > 0 {
        let head = lower_instr(body[0], names, base, push as int);
        let next_names = names_after(body[0], names);
        let next_push = push_after(body[0], push);
        let rest = lower_body(body.drop_first(), next_names, base, next_push);
        assert forall|i: int| 0 <= i < body.drop_first().len() implies !(
        #[trigger] body.drop_first()[i] is AllocateStack) by {
            assert(body.drop_first()[i] == body[i + 1]);
        }
        lemma_lower_body_allocates_nothing(body.drop_first(), next_names, base, next_push);
        assert(!(body[0] is AllocateStack));
        assert forall|i: int| 0 <= i < (head + rest).len() implies !(
        #[trigger] (head + rest)[i] is AllocateStack) by {
            if i >= head.len() {
                assert((head + rest)[i] == rest[i - head.len()]);
            }
        }
    }
}

/// A function with at most six parameters whose body uses no symbolic
/// register and allocates no stack gets no stack allocation at all.
pub proof fn zero_slots_elide_prologue(f: FunctionDefinition<Pseudo>, g: FunctionDefinition<X86>)
    requires
        lowered(f, g),
        f.params.len() <= 6,
        forall|i: int| 0 <= i < f.body@.len() ==> !uses_symbol(#[trigger] f.body@[i]),
        forall|i: int| 0 <= i < f.body@.len() ==> !(#[trigger] f.body@[i] is AllocateStack),
    ensures
        g.body@ == lower_body(f.body@, seq![], 0, 0),
        forall|i: int| 0 <= i < g.body@.len() ==> !(#[trigger] g.body@[i] is AllocateStack),
{
    lemma_names_after_body(f.body@, seq![]);
    lemma_lower_body_allocates_nothing(f.body@, seq![], 0, 0);
}

proof fn lemma_pop_pushed(push: nat, k: nat)
    ensures
        pop_words(push + 8 * k, k) == push,
    decreases k,
{
    if k > 0 {
        lemma_pop_pushed(push, (k - 1) as nat);
        assert((push + 8 * k - 8) as nat == push + 8 * (k - 1));
    }
}

/// Pushes and pops are transparent to slot addresses: while `k` pushed
/// words are outstanding a slot's address is corrected by their bytes, and
/// once a release of those bytes pops them the slot resolves to the address
/// it had before the pushes.
pub proof fn push_pop_transparent(names: Seq<Seq<u8>>, n: Seq<u8>, base: int, push: nat, k: nat)
    requires
        8 * k <= usize::MAX,
    ensures
        slot_offset(names, n, base, (push + 8 * k) as int) == slot_offset(names, n, base, push as int) + 8 * k,
        push_after(Pseudo::DeallocateStack((8 * k) as usize), push + 8 * k) == push,
        slot_offset(
            names,
            n,
            base,
            push_after(Pseudo::DeallocateStack((8 * k) as usize), push + 8 * k) as int,
        ) == slot_offset(names, n, base, push as int),
{
    lemma_pop_pushed(push, k);
    assert((8 * k) as usize / 8 == k);
}

} // verus!
