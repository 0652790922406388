//! What the emitted lines do: a model of the processor that runs them, and
//! the proof that running them computes what the source means.
//!
//! The model keeps the three registers that the generator names, the two
//! stack registers, and memory as cells of eight bytes.  Registers and cells
//! hold signed 64-bit integers; arithmetic wraps as the processor's does.
//! Addresses of the stack are not wrapped: the model's stack has no end.
use vstd::prelude::*;

use crate::codegen::{
    body_lines, closing_lines, first_fault, opening_lines, operator_lines, program_lines,
    statement_lines, target_lines, value_lines, Line,
};
use crate::parse::{grammatical, is_binary_operator, is_variable_name, slot_offset, Node, NodeKind};
use crate::semantics::{
    apply, bounded, eval, eval_all, exact, fits, in_range, is_arithmetic,
    lemma_arithmetic_is_meaningful, lemma_exact, lemma_wrap, meaningful, modulus, quotient, truth,
    wrap, Env,
};
use crate::token::TokenKind;

verus! {

/// Whether the processor still runs, has returned, or was stopped by a
/// divide error or by an access that is not aligned with the stack.
pub ghost enum Status {
    Running,
    Returned,
    Trapped,
}

/// Memory with the cell at `address` replaced by `v`.
pub open spec fn store(mem: spec_fn(int) -> int, address: int, v: int) -> spec_fn(int) -> int {
    |a: int|
        if a == address {
            v
        } else {
            mem(a)
        }
}

/// The state of the processor.
pub ghost struct Machine {
    pub rax: int,
    pub rdi: int,
    pub rdx: int,
    /// frame base
    pub rbp: int,
    /// address of the cell on top of the stack; the stack grows downward
    pub rsp: int,
    /// the two operands of the last comparison
    pub flags: (int, int),
    /// the cell at each address
    pub mem: spec_fn(int) -> int,
    pub status: Status,
}

impl Machine {
    /// Pushes `v`.
    pub open spec fn push(self, v: int) -> Machine {
        Machine { rsp: self.rsp - 8, mem: store(self.mem, self.rsp - 8, v), ..self }
    }

    /// The cell on top of the stack.
    pub open spec fn top(self) -> int {
        (self.mem)(self.rsp)
    }

    /// Drops the cell on top of the stack.
    pub open spec fn drop(self) -> Machine {
        Machine { rsp: self.rsp + 8, ..self }
    }

    /// Whether a cell may be read or written at `address`: the model keeps
    /// cells apart, so every access has to be aligned with the stack.
    pub open spec fn aligned(self, address: int) -> bool {
        (address - self.rsp) % 8 == 0
    }

    /// Stops the processor.
    pub open spec fn trap(self) -> Machine {
        Machine { status: Status::Trapped, ..self }
    }

    /// `rax` with its lowest byte replaced by the truth value `b`.
    pub open spec fn set_low_byte(self, b: bool) -> Machine {
        Machine { rax: self.rax - self.rax % 256 + truth(b), ..self }
    }

    /// The state after one line.  Directives, the label and remarks change
    /// nothing, and neither does any line once the processor has stopped.
    pub open spec fn step(self, line: Line) -> Machine {
        if !(self.status is Running) {
            self
        } else {
            match line {
                Line::IntelSyntax
                | Line::Global
                | Line::Label
                | Line::PrologueStart
                | Line::PrologueEnd
                | Line::StatementEnd
                | Line::Epilogue => self,
                Line::PushRbp => self.push(self.rbp),
                Line::MovRbpRsp => Machine { rbp: self.rsp, ..self },
                Line::ReserveFrame => Machine { rsp: self.rsp - 208, ..self },
                Line::MovRspRbp => Machine { rsp: self.rbp, ..self },
                Line::PopRbp => Machine { rbp: self.top(), ..self.drop() },
                Line::Ret => Machine { status: Status::Returned, ..self.drop() },
                Line::Push(v) => self.push(v as int),
                Line::PushRax => self.push(self.rax),
                Line::PushRdi => self.push(self.rdi),
                Line::PopRax => Machine { rax: self.top(), ..self.drop() },
                Line::PopRdi => Machine { rdi: self.top(), ..self.drop() },
                Line::Add => Machine { rax: wrap(self.rax + self.rdi), ..self },
                Line::Sub => Machine { rax: wrap(self.rax - self.rdi), ..self },
                Line::Imul => Machine { rax: wrap(self.rax * self.rdi), ..self },
                Line::Cqo => Machine {
                    rdx: if self.rax < 0 {
                        -1
                    } else {
                        0
                    },
                    ..self
                },
                Line::Idiv => {
                    let dividend = self.rdx * modulus() + self.rax % modulus();
                    if self.rdi == 0 || !in_range(quotient(dividend, self.rdi)) {
                        self.trap()
                    } else {
                        Machine {
                            rax: quotient(dividend, self.rdi),
                            rdx: dividend - quotient(dividend, self.rdi) * self.rdi,
                            ..self
                        }
                    }
                },
                Line::Cmp => Machine { flags: (self.rax, self.rdi), ..self },
                Line::Sete => self.set_low_byte(self.flags.0 == self.flags.1),
                Line::Setne => self.set_low_byte(self.flags.0 != self.flags.1),
                Line::Setl => self.set_low_byte(self.flags.0 < self.flags.1),
                Line::Setle => self.set_low_byte(self.flags.0 <= self.flags.1),
                Line::Movzb => Machine { rax: self.rax % 256, ..self },
                Line::SlotAddress(offset) => {
                    let address = wrap(self.rbp - offset);
                    Machine { rax: address, ..self }.push(address)
                },
                Line::Load => if self.aligned(self.rax) {
                    Machine { rax: (self.mem)(self.rax), ..self }
                } else {
                    self.trap()
                },
                Line::Store => if self.aligned(self.rax) {
                    Machine { mem: store(self.mem, self.rax, self.rdi), ..self }
                } else {
                    self.trap()
                },
            }
        }
    }

    /// The state after a sequence of lines, one after the other.
    pub open spec fn run(self, lines: Seq<Line>) -> Machine
        decreases lines.len(),
    {
        if lines.len() == 0 {
            self
        } else {
            self.run(lines.drop_last()).step(lines.last())
        }
    }
}

/// Running one line more is one step more.
pub proof fn lemma_run_push(m: Machine, lines: Seq<Line>, line: Line)
    ensures
        m.run(lines.push(line)) == m.run(lines).step(line),
{
    assert(lines.push(line).drop_last() =~= lines);
}

/// Running two sequences in a row is running the second from where the
/// first has led.
pub proof fn lemma_run_concat(m: Machine, a: Seq<Line>, b: Seq<Line>)
    ensures
        m.run(a + b) == m.run(a).run(b),
    decreases b.len(),
{
    if b.len() == 0 {
        assert(a + b =~= a);
    } else {
        lemma_run_concat(m, a, b.drop_last());
        assert((a + b).drop_last() =~= a + b.drop_last());
    }
}

/// A processor that has stopped stays as it is.
pub proof fn lemma_run_stopped(m: Machine, lines: Seq<Line>)
    requires
        !(m.status is Running),
    ensures
        m.run(lines) == m,
    decreases lines.len(),
{
    if lines.len() > 0 {
        lemma_run_stopped(m, lines.drop_last());
    }
}

/// The frame is set up: the processor runs, the 208 bytes below the frame
/// base lie above the top of the stack and in step with it, and their
/// addresses are 64-bit integers.
pub open spec fn frame_ready(m: Machine) -> bool {
    &&& m.status is Running
    &&& m.rsp <= m.rbp - 208
    &&& m.aligned(m.rbp)
    &&& in_range(m.rbp)
    &&& in_range(m.rbp - 208)
}

/// The slots of the frame hold the values of the variables.
pub open spec fn holds(m: Machine, env: Env) -> bool {
    forall|c: char| is_variable_name(c) ==> (m.mem)(m.rbp - slot_offset(c)) == #[trigger] env[c]
}

/// Whether `address` lies in the frame of `m`.
pub open spec fn in_frame(m: Machine, address: int) -> bool {
    m.rbp - 208 <= address < m.rbp
}

/// From `m` to `after` nothing has changed in memory from the top of the
/// stack of `m` upward, but for the frame.
pub open spec fn preserved(m: Machine, after: Machine) -> bool {
    forall|address: int|
        address >= m.rsp && !in_frame(m, address) ==> #[trigger] (after.mem)(address)
            == (m.mem)(address)
}

/// From `m` to `after` one cell has been pushed that holds `v`, the
/// variables now hold `env`, and the rest of the stack is as it was.
pub open spec fn pushed(m: Machine, after: Machine, v: int, env: Env) -> bool {
    &&& after.status is Running
    &&& after.rsp == m.rsp - 8
    &&& after.rbp == m.rbp
    &&& after.top() == v
    &&& holds(after, env)
    &&& preserved(m, after)
}

/// A run of one line is one step.
proof fn lemma_run_one(m: Machine, a: Line)
    ensures
        m.run(seq![a]) == m.step(a),
{
    lemma_run_push(m, Seq::empty(), a);
    assert(Seq::<Line>::empty().push(a) =~= seq![a]);
}

/// A run of two lines is two steps.
proof fn lemma_run_two(m: Machine, a: Line, b: Line)
    ensures
        m.run(seq![a, b]) == m.step(a).step(b),
{
    lemma_run_one(m, a);
    lemma_run_push(m, seq![a], b);
    assert(seq![a].push(b) =~= seq![a, b]);
}

/// A run of three lines is three steps.
proof fn lemma_run_three(m: Machine, a: Line, b: Line, c: Line)
    ensures
        m.run(seq![a, b, c]) == m.step(a).step(b).step(c),
{
    lemma_run_two(m, a, b);
    lemma_run_push(m, seq![a, b], c);
    assert(seq![a, b].push(c) =~= seq![a, b, c]);
}

/// A run of four lines is four steps.
proof fn lemma_run_four(m: Machine, a: Line, b: Line, c: Line, d: Line)
    ensures
        m.run(seq![a, b, c, d]) == m.step(a).step(b).step(c).step(d),
{
    lemma_run_three(m, a, b, c);
    lemma_run_push(m, seq![a, b, c], d);
    assert(seq![a, b, c].push(d) =~= seq![a, b, c, d]);
}

/// The slots of two variables lie apart, each within the frame and in
/// step with it.
pub proof fn lemma_slots(c: char, d: char)
    requires
        is_variable_name(c),
        is_variable_name(d),
    ensures
        8 <= slot_offset(c) <= 208,
        slot_offset(c) % 8 == 0,
        c != d ==> slot_offset(c) != slot_offset(d),
{
}

/// Sign extension into `rdx` makes the dividend of a division the value
/// of `rax`.
proof fn lemma_dividend(rax: int)
    requires
        in_range(rax),
    ensures
        (if rax < 0 {
            -1int
        } else {
            0int
        }) * modulus() + rax % modulus() == rax,
{
}

/// Setting the lowest byte and widening it gives the truth value.
proof fn lemma_low_byte(x: int, b: bool)
    ensures
        (x - x % 256 + truth(b)) % 256 == truth(b),
{
}

/// What a run of the instructions of an operator has to achieve from `m`.
pub open spec fn applied(op: TokenKind, m: Machine, after: Machine) -> bool {
    match apply(op, m.rax, m.rdi) {
        Some(v) => {
            &&& in_range(v)
            &&& after.status is Running
            &&& after.rax == v
            &&& after.rsp == m.rsp
            &&& after.rbp == m.rbp
            &&& after.mem == m.mem
        },
        None => after.status is Trapped,
    }
}

/// Sums, differences and products are computed in `rax`.
proof fn lemma_arithmetic(op: TokenKind, m: Machine)
    requires
        op is Plus || op is Minus || op is Mul,
        m.status is Running,
    ensures
        applied(op, m, m.run(operator_lines(op).unwrap())),
{
    match op {
        TokenKind::Plus => {
            lemma_run_one(m, Line::Add);
            lemma_wrap(m.rax + m.rdi);
        },
        TokenKind::Minus => {
            lemma_run_one(m, Line::Sub);
            lemma_wrap(m.rax - m.rdi);
        },
        TokenKind::Mul => {
            lemma_run_one(m, Line::Imul);
            lemma_wrap(m.rax * m.rdi);
        },
        _ => {},
    }
}

/// A quotient is computed in `rax`, or the processor stops.
proof fn lemma_division(m: Machine)
    requires
        m.status is Running,
        in_range(m.rax),
    ensures
        applied(TokenKind::Div, m, m.run(operator_lines(TokenKind::Div).unwrap())),
{
    lemma_run_two(m, Line::Cqo, Line::Idiv);
    lemma_dividend(m.rax);
}

/// The truth value of a comparison is computed in `rax`.
proof fn lemma_comparison(op: TokenKind, m: Machine)
    requires
        op is EQ || op is NEQ || op is LeftAngleBracket || op is LE,
        m.status is Running,
    ensures
        applied(op, m, m.run(operator_lines(op).unwrap())),
{
    let b = match op {
        TokenKind::EQ => m.rax == m.rdi,
        TokenKind::NEQ => m.rax != m.rdi,
        TokenKind::LeftAngleBracket => m.rax < m.rdi,
        _ => m.rax <= m.rdi,
    };
    lemma_low_byte(m.rax, b);
    match op {
        TokenKind::EQ => lemma_run_three(m, Line::Cmp, Line::Sete, Line::Movzb),
        TokenKind::NEQ => lemma_run_three(m, Line::Cmp, Line::Setne, Line::Movzb),
        TokenKind::LeftAngleBracket => lemma_run_three(m, Line::Cmp, Line::Setl, Line::Movzb),
        TokenKind::LE => lemma_run_three(m, Line::Cmp, Line::Setle, Line::Movzb),
        _ => {},
    }
}

/// The instructions of a binary operator compute in `rax` what the source
/// asks for, from the operands in `rax` and `rdi`, and leave the stack and
/// memory as they are; they stop the processor where the source has no
/// value.
pub proof fn lemma_operator(op: TokenKind, m: Machine)
    requires
        is_binary_operator(op),
        m.status is Running,
        in_range(m.rax),
    ensures
        applied(op, m, m.run(operator_lines(op).unwrap())),
{
    if op is Plus || op is Minus || op is Mul {
        lemma_arithmetic(op, m);
    } else if op is Div {
        lemma_division(m);
    } else {
        lemma_comparison(op, m);
    }
}

/// What a run of the lines of `node` has to achieve from `m`, where the
/// variables hold `env`: the value of `node` is pushed and the variables
/// hold what the source says, or the processor has stopped where the
/// source has no value.
pub open spec fn computed(node: Node, env: Env, m: Machine, after: Machine) -> bool {
    match eval(node, env) {
        Some((v, env1)) => in_range(v) && bounded(env1) && pushed(m, after, v, env1),
        None => after.status is Trapped,
    }
}

/// Reading a variable pushes the value that its slot holds.
proof fn lemma_variable(c: char, offset: usize, m: Machine, env: Env)
    requires
        is_variable_name(c),
        offset == slot_offset(c),
        frame_ready(m),
        holds(m, env),
        bounded(env),
    ensures
        pushed(
            m,
            m.run(seq![Line::SlotAddress(offset), Line::PopRax, Line::Load, Line::PushRax]),
            env[c],
            env,
        ),
{
    lemma_slots(c, c);
    lemma_run_four(m, Line::SlotAddress(offset), Line::PopRax, Line::Load, Line::PushRax);
    let address = m.rbp - offset;
    lemma_wrap(address);
    let m1 = m.step(Line::SlotAddress(offset));
    let m2 = m1.step(Line::PopRax);
    assert(m2.rax == address);
    let m3 = m2.step(Line::Load);
    assert(m3.rax == env[c]);
    let m4 = m3.step(Line::PushRax);
    assert(holds(m4, env)) by {
        assert forall|d: char| is_variable_name(d) implies (m4.mem)(m4.rbp - slot_offset(d))
            == #[trigger] env[d] by {
            lemma_slots(d, d);
        }
    }
}

/// The address of a slot is pushed as it is, and no slot changes.
proof fn lemma_address(c: char, offset: usize, m: Machine, env: Env)
    requires
        is_variable_name(c),
        offset == slot_offset(c),
        frame_ready(m),
        holds(m, env),
    ensures
        pushed(m, m.step(Line::SlotAddress(offset)), m.rbp - offset, env),
        frame_ready(m.step(Line::SlotAddress(offset))),
{
    lemma_slots(c, c);
    lemma_wrap(m.rbp - offset);
    let m1 = m.step(Line::SlotAddress(offset));
    assert(holds(m1, env)) by {
        assert forall|d: char| is_variable_name(d) implies (m1.mem)(m1.rbp - slot_offset(d))
            == #[trigger] env[d] by {
            lemma_slots(d, d);
        }
    }
}

/// Once the address of a slot and a value lie on the stack, the lines that
/// close an assignment store the value in the slot and push it again.
proof fn lemma_store(c: char, offset: usize, m: Machine, m2: Machine, v: int, env1: Env)
    requires
        is_variable_name(c),
        offset == slot_offset(c),
        frame_ready(m),
        in_range(v),
        bounded(env1),
        pushed(m.step(Line::SlotAddress(offset)), m2, v, env1),
    ensures
        pushed(
            m,
            m2.run(seq![Line::PopRdi, Line::PopRax, Line::Store, Line::PushRdi]),
            v,
            env1.insert(c, v),
        ),
        bounded(env1.insert(c, v)),
{
    lemma_slots(c, c);
    lemma_run_four(m2, Line::PopRdi, Line::PopRax, Line::Store, Line::PushRdi);
    let address = m.rbp - offset;
    lemma_wrap(address);
    let m1 = m.step(Line::SlotAddress(offset));
    assert(m1.top() == address);
    assert((m2.mem)(m1.rsp) == address);
    let m3 = m2.step(Line::PopRdi);
    let m4 = m3.step(Line::PopRax);
    assert(m4.rax == address);
    assert(m4.rdi == v);
    let m5 = m4.step(Line::Store);
    let m6 = m5.step(Line::PushRdi);
    let env2 = env1.insert(c, v);
    assert(holds(m6, env2)) by {
        assert forall|d: char| is_variable_name(d) implies (m6.mem)(m6.rbp - slot_offset(d))
            == #[trigger] env2[d] by {
            lemma_slots(c, d);
            lemma_slots(d, c);
            assert(env1[d] == (m2.mem)(m2.rbp - slot_offset(d)));
        }
    }
    assert(preserved(m, m6)) by {
        assert forall|a: int| a >= m.rsp && !in_frame(m, a) implies #[trigger] (m6.mem)(a)
            == (m.mem)(a) by {
            assert((m2.mem)(a) == (m1.mem)(a));
        }
    }
}

/// The lines that close a binary node: the operands are popped, the
/// operator is applied, the result is pushed.
pub open spec fn closing(op: TokenKind) -> Seq<Line> {
    seq![Line::PopRdi, Line::PopRax] + operator_lines(op).unwrap() + seq![Line::PushRax]
}

/// Once both operands lie on the stack, the lines that close a binary node
/// replace them by what the operator makes of them.
proof fn lemma_closing(
    op: TokenKind,
    m: Machine,
    m1: Machine,
    m2: Machine,
    a: int,
    b: int,
    env1: Env,
    env2: Env,
)
    requires
        is_binary_operator(op),
        frame_ready(m),
        in_range(a),
        in_range(b),
        pushed(m, m1, a, env1),
        pushed(m1, m2, b, env2),
    ensures
        match apply(op, a, b) {
            Some(v) => in_range(v) && pushed(m, m2.run(closing(op)), v, env2),
            None => m2.run(closing(op)).status is Trapped,
        },
{
    let pops = seq![Line::PopRdi, Line::PopRax];
    let ops = operator_lines(op).unwrap();
    let last = seq![Line::PushRax];
    lemma_run_concat(m2, pops + ops, last);
    lemma_run_concat(m2, pops, ops);
    lemma_run_two(m2, Line::PopRdi, Line::PopRax);
    let m3 = m2.run(pops);
    assert(m3.rdi == b);
    assert((m2.mem)(m1.rsp) == (m1.mem)(m1.rsp));
    assert(m3.rax == a);
    lemma_operator(op, m3);
    let m4 = m3.run(ops);
    lemma_run_one(m4, Line::PushRax);
    let m5 = m4.run(last);
    assert(m5 == m2.run(closing(op)));
    match apply(op, a, b) {
        None => {},
        Some(v) => {
            assert(m5.mem == store(m2.mem, m.rsp - 8, v));
            assert(holds(m5, env2)) by {
                assert forall|d: char| is_variable_name(d) implies (m5.mem)(m5.rbp - slot_offset(d))
                    == #[trigger] env2[d] by {
                    lemma_slots(d, d);
                    assert((m2.mem)(m2.rbp - slot_offset(d)) == env2[d]);
                }
            }
            assert(preserved(m, m5)) by {
                assert forall|x: int| x >= m.rsp && !in_frame(m, x) implies #[trigger] (m5.mem)(x)
                    == (m.mem)(x) by {
                    assert((m2.mem)(x) == (m1.mem)(x));
                    assert((m1.mem)(x) == (m.mem)(x));
                }
            }
        },
    }
}

/// Running the lines of a tree pushes the value that the source gives the
/// tree and leaves the variables as the source says, whatever the tree.
/// The stack is one cell taller than before and otherwise as it was.  The
/// processor stops only where the source has no value: on a division by
/// zero, or of the least integer by -1.
pub proof fn lemma_value(node: Node, m: Machine, env: Env)
    requires
        grammatical(node),
        first_fault(node) is None,
        frame_ready(m),
        holds(m, env),
        bounded(env),
    ensures
        computed(node, env, m, m.run(value_lines(node))),
    decreases node,
{
    match node.kind {
        NodeKind::Num(v) => {
            lemma_run_one(m, Line::Push(v));
        },
        NodeKind::Lvar(c, offset) => {
            assert(value_lines(node) =~= seq![
                Line::SlotAddress(offset),
                Line::PopRax,
                Line::Load,
                Line::PushRax,
            ]);
            lemma_variable(c, offset, m, env);
        },
        NodeKind::BinOp(op, lhs, rhs) => {
            let left = value_lines(*lhs);
            let right = value_lines(*rhs);
            assert(value_lines(node) =~= left + (right + closing(op)));
            lemma_run_concat(m, left, right + closing(op));
            lemma_run_concat(m.run(left), right, closing(op));
            let m1 = m.run(left);
            lemma_value(*lhs, m, env);
            match eval(*lhs, env) {
                None => {
                    lemma_run_stopped(m1, right + closing(op));
                },
                Some((a, env1)) => {
                    let m2 = m1.run(right);
                    lemma_value(*rhs, m1, env1);
                    match eval(*rhs, env1) {
                        None => {
                            lemma_run_stopped(m2, closing(op));
                        },
                        Some((b, env2)) => {
                            lemma_closing(op, m, m1, m2, a, b, env1, env2);
                        },
                    }
                },
            }
        },
        NodeKind::Assign(target, value) => {
            reveal_with_fuel(grammatical, 2);
            match target.kind {
                NodeKind::Lvar(c, offset) => {
                    let address = seq![Line::SlotAddress(offset)];
                    let inner = value_lines(*value);
                    let store = seq![Line::PopRdi, Line::PopRax, Line::Store, Line::PushRdi];
                    assert(target_lines(*target) =~= address);
                    assert(value_lines(node) =~= address + (inner + store));
                    lemma_run_concat(m, address, inner + store);
                    lemma_run_one(m, Line::SlotAddress(offset));
                    let m1 = m.run(address);
                    lemma_address(c, offset, m, env);
                    lemma_run_concat(m1, inner, store);
                    lemma_value(*value, m1, env);
                    let m2 = m1.run(inner);
                    match eval(*value, env) {
                        None => {
                            lemma_run_stopped(m2, store);
                        },
                        Some((v, env1)) => {
                            lemma_store(c, offset, m, m2, v, env1);
                        },
                    }
                },
                _ => {},
            }
        },
    }
}

/// The lines of an expression of literals, sums, differences and products
/// push the exact value of the expression, with multiplication before
/// addition and everything else from left to right as the tree has it, as
/// long as the value of every part is a signed 64-bit integer.
pub proof fn lemma_arithmetic_is_exact(node: Node, m: Machine, env: Env)
    requires
        is_arithmetic(node),
        fits(node),
        frame_ready(m),
        holds(m, env),
        bounded(env),
    ensures
        pushed(m, m.run(value_lines(node)), exact(node), env),
{
    lemma_arithmetic_is_meaningful(node);
    lemma_exact(node, env);
    lemma_value(node, m, env);
}

/// From `m` to `after` the stack is as tall as it was and holds what it
/// held, the frame base is where it was, and the variables hold `env`.
pub open spec fn balanced(m: Machine, after: Machine, env: Env) -> bool {
    &&& after.status is Running
    &&& after.rsp == m.rsp
    &&& after.rbp == m.rbp
    &&& holds(after, env)
    &&& preserved(m, after)
}

/// Running the lines of a statement leaves its value in `rax`, the
/// variables as the source says, and the stack as tall as it was before
/// the statement.
pub proof fn lemma_statement(node: Node, m: Machine, env: Env)
    requires
        grammatical(node),
        first_fault(node) is None,
        frame_ready(m),
        holds(m, env),
        bounded(env),
    ensures
        ({
            let after = m.run(statement_lines(node));
            match eval(node, env) {
                Some((v, env1)) => after.rax == v && bounded(env1) && balanced(m, after, env1),
                None => after.status is Trapped,
            }
        }),
{
    let tail = seq![Line::PopRax, Line::StatementEnd];
    lemma_run_concat(m, value_lines(node), tail);
    lemma_value(node, m, env);
    let m1 = m.run(value_lines(node));
    lemma_run_two(m1, Line::PopRax, Line::StatementEnd);
    if eval(node, env) is None {
        lemma_run_stopped(m1, tail);
    }
}

/// What a run of the first `n` statements of `nodes` has to achieve from
/// `m`, where the variables hold `env`.
pub open spec fn carried_out(nodes: Seq<Node>, n: int, env: Env, m: Machine, after: Machine) -> bool {
    match eval_all(nodes, n, env) {
        Some((last, env1)) => {
            &&& after.rax == match last {
                Some(v) => v,
                None => m.rax,
            }
            &&& bounded(env1)
            &&& balanced(m, after, env1)
        },
        None => after.status is Trapped,
    }
}

/// Running the lines of a sequence of statements leaves the value of the
/// last one in `rax` and the stack as tall as it was; after every single
/// statement the stack is back at the height from which the statement set
/// out.
pub proof fn lemma_body(nodes: Seq<Node>, n: int, m: Machine, env: Env)
    requires
        0 <= n <= nodes.len(),
        meaningful(nodes),
        frame_ready(m),
        holds(m, env),
        bounded(env),
    ensures
        carried_out(nodes, n, env, m, m.run(body_lines(nodes, n))),
    decreases n,
{
    if n > 0 {
        lemma_body(nodes, n - 1, m, env);
        let before = body_lines(nodes, n - 1);
        let m1 = m.run(before);
        lemma_run_concat(m, before, statement_lines(nodes[n - 1]));
        match eval_all(nodes, n - 1, env) {
            None => {
                lemma_run_stopped(m1, statement_lines(nodes[n - 1]));
            },
            Some((_, env1)) => {
                lemma_statement(nodes[n - 1], m1, env1);
                let m2 = m1.run(statement_lines(nodes[n - 1]));
                if let Some((v, env2)) = eval(nodes[n - 1], env1) {
                    assert(preserved(m, m2)) by {
                        assert forall|a: int| a >= m.rsp && !in_frame(m, a) implies #[trigger] (m2.mem)(a)
                            == (m.mem)(a) by {
                            assert((m1.mem)(a) == (m.mem)(a));
                        }
                    }
                }
            },
        }
    }
}

/// The processor is about to enter the routine: it runs, and the stack
/// has room for the saved frame base and the frame within the addresses
/// of 64 bits.
pub open spec fn entering(m: Machine) -> bool {
    &&& m.status is Running
    &&& in_range(m.rsp)
    &&& in_range(m.rsp - 216)
}

/// What the variables hold when the routine begins: whatever memory holds
/// where the prologue puts the frame.
pub open spec fn found(m: Machine) -> Env {
    Map::new(|c: char| is_variable_name(c), |c: char| (m.mem)(m.rsp - 8 - slot_offset(c)))
}

/// The prologue sets the frame up below the caller's stack.
proof fn lemma_opening(m: Machine)
    requires
        entering(m),
    ensures
        ({
            let after = m.run(opening_lines());
            &&& frame_ready(after)
            &&& after.rbp == m.rsp - 8
            &&& after.rsp == m.rsp - 216
            &&& after.rax == m.rax
            &&& after.mem == store(m.mem, m.rsp - 8, m.rbp)
            &&& holds(after, found(m))
        }),
{
    let first = seq![Line::IntelSyntax, Line::Global, Line::Label, Line::PrologueStart];
    let second = seq![Line::PushRbp, Line::MovRbpRsp, Line::ReserveFrame, Line::PrologueEnd];
    assert(opening_lines() =~= first + second);
    lemma_run_concat(m, first, second);
    lemma_run_four(m, Line::IntelSyntax, Line::Global, Line::Label, Line::PrologueStart);
    lemma_run_four(m, Line::PushRbp, Line::MovRbpRsp, Line::ReserveFrame, Line::PrologueEnd);
    let after = m.run(opening_lines());
    assert(holds(after, found(m))) by {
        assert forall|c: char| is_variable_name(c) implies (after.mem)(after.rbp - slot_offset(c))
            == #[trigger] found(m)[c] by {
            lemma_slots(c, c);
        }
    }
}

/// The epilogue gives the frame back and returns to the caller.
proof fn lemma_closing_lines(m: Machine)
    requires
        m.status is Running,
    ensures
        ({
            let after = m.run(closing_lines());
            &&& after.status is Returned
            &&& after.rax == m.rax
            &&& after.rbp == (m.mem)(m.rbp)
            &&& after.rsp == m.rbp + 16
            &&& after.mem == m.mem
        }),
{
    lemma_run_four(m, Line::Epilogue, Line::MovRspRbp, Line::PopRbp, Line::Ret);
}

/// What a run of the routine for `nodes` has to achieve from `m`: the
/// processor has returned with the value of the last statement in `rax`,
/// the stack and the frame base are the caller's again, and memory from
/// the caller's stack upward is as it was; or the processor has stopped
/// where a statement has no value.
pub open spec fn returned(nodes: Seq<Node>, m: Machine, after: Machine) -> bool {
    match eval_all(nodes, nodes.len() as int, found(m)) {
        Some((last, _)) => {
            &&& after.status is Returned
            &&& after.rax == match last {
                Some(v) => v,
                None => m.rax,
            }
            &&& after.rsp == m.rsp + 8
            &&& after.rbp == m.rbp
            &&& forall|a: int| a >= m.rsp ==> #[trigger] (after.mem)(a) == (m.mem)(a)
        },
        None => after.status is Trapped,
    }
}

/// The routine that is generated for a program returns the value that the
/// source gives the program's last statement, with the stack as the caller
/// left it, whatever the variables hold at first.
pub proof fn lemma_program(nodes: Seq<Node>, m: Machine)
    requires
        meaningful(nodes),
        entering(m),
        forall|a: int| in_range(#[trigger] (m.mem)(a)),
    ensures
        returned(nodes, m, m.run(program_lines(nodes))),
{
    let n = nodes.len() as int;
    let body = body_lines(nodes, n);
    lemma_run_concat(m, opening_lines() + body, closing_lines());
    lemma_run_concat(m, opening_lines(), body);
    lemma_opening(m);
    let m1 = m.run(opening_lines());
    let env = found(m);
    assert(bounded(env));
    lemma_body(nodes, n, m1, env);
    let m2 = m1.run(body);
    match eval_all(nodes, n, env) {
        None => {
            lemma_run_stopped(m2, closing_lines());
        },
        Some((last, env1)) => {
            lemma_closing_lines(m2);
            let m3 = m2.run(closing_lines());
            assert((m2.mem)(m2.rbp) == (m1.mem)(m1.rbp));
            assert forall|a: int| a >= m.rsp implies #[trigger] (m3.mem)(a) == (m.mem)(a) by {
                assert((m2.mem)(a) == (m1.mem)(a));
            }
        },
    }
}

} // verus!
