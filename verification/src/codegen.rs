//! Code generation: statement trees to assembly text for a stack machine.
//!
//! Every expression is emitted so that running it leaves its value on top
//! of the stack; a statement pops that value into `rax` again.
use vstd::prelude::*;
use vstd::string::*;

use crate::error::GenError;
use crate::parse::{grammatical, Node, NodeKind};
use crate::token::TokenKind;

verus! {

/// The bytes that the routine reserves for its variables: one slot of
/// eight bytes for each of the 26 names.
pub const FRAME_BYTES: usize = 208;

/// One piece of emitted text: a directive, a remark or an instruction.
pub ghost enum Line {
    /// selects the operand syntax
    IntelSyntax,
    /// makes the label `main` visible to the linker
    Global,
    /// the label of the routine
    Label,
    /// remark: the prologue begins
    PrologueStart,
    /// remark: the prologue is done
    PrologueEnd,
    /// remark: a statement is done
    StatementEnd,
    /// remark: the epilogue begins
    Epilogue,
    /// `push rbp`
    PushRbp,
    /// `mov rbp, rsp`
    MovRbpRsp,
    /// `sub rsp, 208`
    ReserveFrame,
    /// `mov rsp, rbp`
    MovRspRbp,
    /// `pop rbp`
    PopRbp,
    /// `ret`
    Ret,
    /// `push` of a literal
    Push(i32),
    /// `push rax`
    PushRax,
    /// `push rdi`
    PushRdi,
    /// `pop rax`
    PopRax,
    /// `pop rdi`
    PopRdi,
    /// `add rax, rdi`
    Add,
    /// `sub rax, rdi`
    Sub,
    /// `imul rax, rdi`
    Imul,
    /// `cqo`
    Cqo,
    /// `idiv rdi`
    Idiv,
    /// `cmp rax, rdi`
    Cmp,
    /// `sete al`
    Sete,
    /// `setne al`
    Setne,
    /// `setl al`
    Setl,
    /// `setle al`
    Setle,
    /// `movzb rax, al`
    Movzb,
    /// three instructions that push the address of a slot:
    /// `mov rax, rbp`, `sub rax, offset`, `push rax`
    SlotAddress(usize),
    /// `mov rax, [rax]`
    Load,
    /// `mov [rax], rdi`
    Store,
}

/// The character of a decimal digit.
pub open spec fn digit_char(d: int) -> char {
    ('0' as int + d) as char
}

/// The decimal digits of `n`, without leading zeros.
pub open spec fn digits(n: nat) -> Seq<char>
    decreases n,
{
    if n < 10 {
        seq![digit_char(n as int)]
    } else {
        digits(n / 10).push(digit_char((n % 10) as int))
    }
}

/// `v` in decimal, with a minus sign where it is negative.
pub open spec fn decimal(v: int) -> Seq<char> {
    if v < 0 {
        seq!['-'] + digits((-v) as nat)
    } else {
        digits(v as nat)
    }
}

impl Line {
    /// The text of the line, its line break included.
    pub open spec fn text(self) -> Seq<char> {
        match self {
            Line::IntelSyntax => ".intel_syntax noprefix\n"@,
            Line::Global => ".globl main\n"@,
            Line::Label => "main:\n"@,
            Line::PrologueStart => "  # prologue start\n"@,
            Line::PrologueEnd => "  # prologue end\n"@,
            Line::StatementEnd => "  # stmt-fin \n"@,
            Line::Epilogue => "  # epilogue\n"@,
            Line::PushRbp => "  push rbp\n"@,
            Line::MovRbpRsp => "  mov rbp, rsp\n"@,
            Line::ReserveFrame => "  sub rsp, 208\n"@,
            Line::MovRspRbp => "  mov rsp, rbp\n"@,
            Line::PopRbp => "  pop rbp\n"@,
            Line::Ret => "  ret\n"@,
            Line::Push(v) => "  push "@ + decimal(v as int) + "\n"@,
            Line::PushRax => "  push rax\n"@,
            Line::PushRdi => "  push rdi\n"@,
            Line::PopRax => "  pop rax\n"@,
            Line::PopRdi => "  pop rdi\n"@,
            Line::Add => "  add rax, rdi\n"@,
            Line::Sub => "  sub rax, rdi\n"@,
            Line::Imul => "  imul rax, rdi\n"@,
            Line::Cqo => "  cqo\n"@,
            Line::Idiv => "  idiv rdi\n"@,
            Line::Cmp => "  cmp rax, rdi\n"@,
            Line::Sete => "  sete al\n"@,
            Line::Setne => "  setne al\n"@,
            Line::Setl => "  setl al\n"@,
            Line::Setle => "  setle al\n"@,
            Line::Movzb => "  movzb rax, al\n"@,
            Line::SlotAddress(offset) => "\n  mov rax, rbp\n\tsub rax, "@ + decimal(offset as int)
                + "\n\tpush rax\n\t\n"@,
            Line::Load => "  mov rax, [rax]\n"@,
            Line::Store => "  mov [rax], rdi\n"@,
        }
    }
}

/// The text of a sequence of lines, one behind the other.
pub open spec fn text(lines: Seq<Line>) -> Seq<char>
    decreases lines.len(),
{
    if lines.len() == 0 {
        Seq::empty()
    } else {
        text(lines.drop_last()) + lines.last().text()
    }
}

/// The text of one line more is the text so far and that line's text.
pub proof fn lemma_text_push(lines: Seq<Line>, line: Line)
    ensures
        text(lines.push(line)) == text(lines) + line.text(),
{
    assert(lines.push(line).drop_last() =~= lines);
}

/// The text of two sequences in a row is the two texts in a row.
pub proof fn lemma_text_concat(a: Seq<Line>, b: Seq<Line>)
    ensures
        text(a + b) == text(a) + text(b),
    decreases b.len(),
{
    if b.len() == 0 {
        assert(a + b =~= a);
        assert(text(a) + text(b) =~= text(a));
    } else {
        lemma_text_concat(a, b.drop_last());
        assert((a + b).drop_last() =~= a + b.drop_last());
        assert(text(a) + (text(b.drop_last()) + b.last().text()) =~= (text(a) + text(
            b.drop_last(),
        )) + b.last().text());
    }
}

/// The instructions that apply a binary operator to `rax` and `rdi` and
/// leave the result in `rax`; `None` for a token that is no such operator.
pub open spec fn operator_lines(op: TokenKind) -> Option<Seq<Line>> {
    match op {
        TokenKind::Plus => Some(seq![Line::Add]),
        TokenKind::Minus => Some(seq![Line::Sub]),
        TokenKind::Mul => Some(seq![Line::Imul]),
        TokenKind::Div => Some(seq![Line::Cqo, Line::Idiv]),
        TokenKind::EQ => Some(seq![Line::Cmp, Line::Sete, Line::Movzb]),
        TokenKind::NEQ => Some(seq![Line::Cmp, Line::Setne, Line::Movzb]),
        TokenKind::LeftAngleBracket => Some(seq![Line::Cmp, Line::Setl, Line::Movzb]),
        TokenKind::LE => Some(seq![Line::Cmp, Line::Setle, Line::Movzb]),
        _ => None,
    }
}

/// The first fault that generating `node` meets, in the order in which the
/// tree is walked: the operands of a binary node before its operator, the
/// target of an assignment before its value.
pub open spec fn first_fault(node: Node) -> Option<GenError>
    decreases node,
{
    match node.kind {
        NodeKind::Num(_) => None,
        NodeKind::Lvar(_, _) => None,
        NodeKind::BinOp(op, lhs, rhs) => if first_fault(*lhs) is Some {
            first_fault(*lhs)
        } else if first_fault(*rhs) is Some {
            first_fault(*rhs)
        } else if operator_lines(op) is None {
            Some(GenError::BadOperator)
        } else {
            None
        },
        NodeKind::Assign(target, value) => if !(target.kind is Lvar) {
            Some(GenError::NotAssignable)
        } else {
            first_fault(*value)
        },
    }
}

/// The lines that push the address of the slot at `offset`.
pub open spec fn address_lines(offset: usize) -> Seq<Line> {
    seq![Line::SlotAddress(offset)]
}

/// The lines that push the value of `node`, which has no fault.
pub open spec fn value_lines(node: Node) -> Seq<Line>
    decreases node,
{
    match node.kind {
        NodeKind::Num(v) => seq![Line::Push(v)],
        NodeKind::Lvar(_, offset) => address_lines(offset) + seq![
            Line::PopRax,
            Line::Load,
            Line::PushRax,
        ],
        NodeKind::BinOp(op, lhs, rhs) => value_lines(*lhs) + value_lines(*rhs) + seq![
            Line::PopRdi,
            Line::PopRax,
        ] + operator_lines(op).unwrap() + seq![Line::PushRax],
        NodeKind::Assign(target, value) => target_lines(*target) + value_lines(*value) + seq![
            Line::PopRdi,
            Line::PopRax,
            Line::Store,
            Line::PushRdi,
        ],
    }
}

/// The lines that push the address which an assignment to `node` writes.
pub open spec fn target_lines(node: Node) -> Seq<Line> {
    match node.kind {
        NodeKind::Lvar(_, offset) => address_lines(offset),
        _ => Seq::empty(),
    }
}

/// The lines of one statement: its value is pushed, then popped again.
pub open spec fn statement_lines(node: Node) -> Seq<Line> {
    value_lines(node) + seq![Line::PopRax, Line::StatementEnd]
}

/// The lines of the first `n` statements of `nodes`.
pub open spec fn body_lines(nodes: Seq<Node>, n: int) -> Seq<Line>
    decreases n,
{
    if n <= 0 {
        Seq::empty()
    } else {
        body_lines(nodes, n - 1) + statement_lines(nodes[n - 1])
    }
}

/// The lines before the first statement: the directives, the label, and
/// the prologue that saves the caller's frame and reserves the new one.
pub open spec fn opening_lines() -> Seq<Line> {
    seq![
        Line::IntelSyntax,
        Line::Global,
        Line::Label,
        Line::PrologueStart,
        Line::PushRbp,
        Line::MovRbpRsp,
        Line::ReserveFrame,
        Line::PrologueEnd,
    ]
}

/// The lines behind the last statement: the epilogue that gives the frame
/// back and returns.
pub open spec fn closing_lines() -> Seq<Line> {
    seq![Line::Epilogue, Line::MovRspRbp, Line::PopRbp, Line::Ret]
}

/// The lines of a whole routine.
pub open spec fn program_lines(nodes: Seq<Node>) -> Seq<Line> {
    opening_lines() + body_lines(nodes, nodes.len() as int) + closing_lines()
}

/// The first fault among the first `n` statements of `nodes`.
pub open spec fn fault_before(nodes: Seq<Node>, n: int) -> Option<GenError>
    decreases n,
{
    if n <= 0 {
        None
    } else if fault_before(nodes, n - 1) is Some {
        fault_before(nodes, n - 1)
    } else {
        first_fault(nodes[n - 1])
    }
}

/// A fault among the first `k` statements is the first fault among any
/// `n` statements from `k` on.
pub proof fn lemma_fault_stays(nodes: Seq<Node>, k: int, n: int)
    requires
        k <= n,
        fault_before(nodes, k) is Some,
    ensures
        fault_before(nodes, n) == fault_before(nodes, k),
    decreases n - k,
{
    if k < n {
        lemma_fault_stays(nodes, k, n - 1);
    }
}

/// The text of the routine for `nodes`, or the first fault of the first
/// statement that has one.
pub open spec fn program_text(nodes: Seq<Node>) -> Result<Seq<char>, GenError> {
    match fault_before(nodes, nodes.len() as int) {
        Some(e) => Err(e),
        None => Ok(text(program_lines(nodes))),
    }
}

impl Line {
    /// By how many cells the line makes the stack taller.
    pub open spec fn effect(self) -> int {
        match self {
            Line::Push(_) | Line::PushRax | Line::PushRdi | Line::PushRbp | Line::SlotAddress(
                _,
            ) => 1,
            Line::PopRax | Line::PopRdi | Line::PopRbp => -1,
            _ => 0,
        }
    }
}

/// By how many cells a sequence of lines makes the stack taller.
pub open spec fn height(lines: Seq<Line>) -> int
    decreases lines.len(),
{
    if lines.len() == 0 {
        0
    } else {
        height(lines.drop_last()) + lines.last().effect()
    }
}

/// Whether the stack is never lower than at the start while `lines` run.
pub open spec fn never_below(lines: Seq<Line>) -> bool {
    forall|n: int| 0 <= n <= lines.len() ==> height(#[trigger] lines.take(n)) >= 0
}

/// The height of two sequences in a row is the sum of their heights.
pub proof fn lemma_height_concat(a: Seq<Line>, b: Seq<Line>)
    ensures
        height(a + b) == height(a) + height(b),
    decreases b.len(),
{
    if b.len() == 0 {
        assert(a + b =~= a);
    } else {
        lemma_height_concat(a, b.drop_last());
        assert((a + b).drop_last() =~= a + b.drop_last());
    }
}

/// Lines that never go below their start and end at or above it may be
/// followed by lines that never go below theirs.
pub proof fn lemma_never_below_concat(a: Seq<Line>, b: Seq<Line>)
    requires
        never_below(a),
        never_below(b),
        height(a) >= 0,
    ensures
        never_below(a + b),
{
    assert forall|n: int| 0 <= n <= (a + b).len() implies height(#[trigger] (a + b).take(n))
        >= 0 by {
        if n <= a.len() {
            assert((a + b).take(n) =~= a.take(n));
        } else {
            assert((a + b).take(n) =~= a + b.take(n - a.len()));
            lemma_height_concat(a, b.take(n - a.len()));
        }
    }
}

/// Lines that never go below their start may be followed by one line that
/// does not lead below it either.
proof fn lemma_never_below_push(a: Seq<Line>, line: Line)
    requires
        never_below(a),
        height(a) + line.effect() >= 0,
    ensures
        never_below(a.push(line)),
        height(a.push(line)) == height(a) + line.effect(),
{
    assert(a.push(line).drop_last() =~= a);
    assert forall|n: int| 0 <= n <= a.push(line).len() implies height(
        #[trigger] a.push(line).take(n),
    ) >= 0 by {
        if n <= a.len() {
            assert(a.push(line).take(n) =~= a.take(n));
        } else {
            assert(a.push(line).take(n) =~= a.push(line));
        }
    }
}

/// The lines of an expression leave the stack exactly one cell taller than
/// they found it, whatever the shape of the tree, and never take a cell
/// that they have not pushed.
pub proof fn lemma_value_pushes_one(node: Node)
    requires
        first_fault(node) is None,
    ensures
        height(value_lines(node)) == 1,
        never_below(value_lines(node)),
    decreases node,
{
    let none = Seq::<Line>::empty();
    assert(never_below(none)) by {
        assert forall|n: int| 0 <= n <= none.len() implies height(#[trigger] none.take(n))
            >= 0 by {
            assert(none.take(n) =~= none);
        }
    }
    match node.kind {
        NodeKind::Num(v) => {
            lemma_never_below_push(none, Line::Push(v));
            assert(value_lines(node) =~= none.push(Line::Push(v)));
        },
        NodeKind::Lvar(_, offset) => {
            let l1 = none.push(Line::SlotAddress(offset));
            let l2 = l1.push(Line::PopRax);
            let l3 = l2.push(Line::Load);
            let l4 = l3.push(Line::PushRax);
            lemma_never_below_push(none, Line::SlotAddress(offset));
            lemma_never_below_push(l1, Line::PopRax);
            lemma_never_below_push(l2, Line::Load);
            lemma_never_below_push(l3, Line::PushRax);
            assert(value_lines(node) =~= l4);
        },
        NodeKind::BinOp(op, lhs, rhs) => {
            lemma_value_pushes_one(*lhs);
            lemma_value_pushes_one(*rhs);
            let both = value_lines(*lhs) + value_lines(*rhs);
            lemma_height_concat(value_lines(*lhs), value_lines(*rhs));
            lemma_never_below_concat(value_lines(*lhs), value_lines(*rhs));
            let l1 = both.push(Line::PopRdi);
            let l2 = l1.push(Line::PopRax);
            lemma_never_below_push(both, Line::PopRdi);
            lemma_never_below_push(l1, Line::PopRax);
            let ops = operator_lines(op).unwrap();
            lemma_operator_keeps_height(op);
            lemma_height_concat(l2, ops);
            lemma_never_below_concat(l2, ops);
            lemma_never_below_push(l2 + ops, Line::PushRax);
            assert(value_lines(node) =~= (l2 + ops).push(Line::PushRax));
        },
        NodeKind::Assign(target, value) => {
            lemma_value_pushes_one(*value);
            match target.kind {
                NodeKind::Lvar(_, offset) => {
                    let l1 = none.push(Line::SlotAddress(offset));
                    lemma_never_below_push(none, Line::SlotAddress(offset));
                    assert(target_lines(*target) =~= l1);
                    let both = l1 + value_lines(*value);
                    lemma_height_concat(l1, value_lines(*value));
                    lemma_never_below_concat(l1, value_lines(*value));
                    let l2 = both.push(Line::PopRdi);
                    let l3 = l2.push(Line::PopRax);
                    let l4 = l3.push(Line::Store);
                    let l5 = l4.push(Line::PushRdi);
                    lemma_never_below_push(both, Line::PopRdi);
                    lemma_never_below_push(l2, Line::PopRax);
                    lemma_never_below_push(l3, Line::Store);
                    lemma_never_below_push(l4, Line::PushRdi);
                    assert(value_lines(node) =~= l5);
                },
                _ => {},
            }
        },
    }
}

/// The instructions of an operator neither push nor pop.
proof fn lemma_operator_keeps_height(op: TokenKind)
    requires
        operator_lines(op) is Some,
    ensures
        height(operator_lines(op).unwrap()) == 0,
        never_below(operator_lines(op).unwrap()),
{
    let none = Seq::<Line>::empty();
    assert(never_below(none)) by {
        assert forall|n: int| 0 <= n <= none.len() implies height(#[trigger] none.take(n))
            >= 0 by {
            assert(none.take(n) =~= none);
        }
    }
    let ops = operator_lines(op).unwrap();
    if ops.len() == 1 {
        lemma_never_below_push(none, ops[0]);
        assert(ops =~= none.push(ops[0]));
    } else if ops.len() == 2 {
        lemma_never_below_push(none, ops[0]);
        lemma_never_below_push(none.push(ops[0]), ops[1]);
        assert(ops =~= none.push(ops[0]).push(ops[1]));
    } else {
        lemma_never_below_push(none, ops[0]);
        lemma_never_below_push(none.push(ops[0]), ops[1]);
        lemma_never_below_push(none.push(ops[0]).push(ops[1]), ops[2]);
        assert(ops =~= none.push(ops[0]).push(ops[1]).push(ops[2]));
    }
}

/// The lines of a statement leave the stack as tall as they found it, and
/// never take a cell that they have not pushed.
pub proof fn lemma_statement_balanced(node: Node)
    requires
        first_fault(node) is None,
    ensures
        height(statement_lines(node)) == 0,
        never_below(statement_lines(node)),
{
    lemma_value_pushes_one(node);
    let l1 = value_lines(node).push(Line::PopRax);
    lemma_never_below_push(value_lines(node), Line::PopRax);
    lemma_never_below_push(l1, Line::StatementEnd);
    assert(statement_lines(node) =~= l1.push(Line::StatementEnd));
}

/// No fault among the first `n` statements means none in any of them.
pub proof fn lemma_no_fault(nodes: Seq<Node>, n: int)
    requires
        fault_before(nodes, n) is None,
    ensures
        forall|i: int| 0 <= i < n ==> first_fault(#[trigger] nodes[i]) is None,
    decreases n,
{
    if n > 0 {
        lemma_no_fault(nodes, n - 1);
    }
}

/// A tree of the grammar never has an operator that the generator does not
/// know: the only fault that a parsed tree can have is an assignment to
/// something that is no variable.
pub proof fn lemma_operators_known(node: Node)
    requires
        grammatical(node),
    ensures
        first_fault(node) != Some(GenError::BadOperator),
    decreases node,
{
    match node.kind {
        NodeKind::BinOp(op, lhs, rhs) => {
            lemma_operators_known(*lhs);
            lemma_operators_known(*rhs);
        },
        NodeKind::Assign(target, value) => {
            lemma_operators_known(*value);
        },
        _ => {},
    }
}

/// What the outcome of generating a routine stands for.
pub open spec fn generated(r: Result<String, GenError>) -> Result<Seq<char>, GenError> {
    match r {
        Ok(code) => Ok(code@),
        Err(e) => Err(e),
    }
}

/// The text of one decimal digit.
fn digit_text(d: u8) -> (s: &'static str)
    requires
        d < 10,
    ensures
        s@ == seq![digit_char(d as int)],
{
    proof {
        reveal_strlit("0");
        reveal_strlit("1");
        reveal_strlit("2");
        reveal_strlit("3");
        reveal_strlit("4");
        reveal_strlit("5");
        reveal_strlit("6");
        reveal_strlit("7");
        reveal_strlit("8");
        reveal_strlit("9");
    }
    let s = if d == 0 {
        "0"
    } else if d == 1 {
        "1"
    } else if d == 2 {
        "2"
    } else if d == 3 {
        "3"
    } else if d == 4 {
        "4"
    } else if d == 5 {
        "5"
    } else if d == 6 {
        "6"
    } else if d == 7 {
        "7"
    } else if d == 8 {
        "8"
    } else {
        "9"
    };
    assert(s@ =~= seq![digit_char(d as int)]);
    s
}

/// Appends the decimal digits of `n`.
fn put_digits(code: &mut String, n: u64)
    ensures
        final(code)@ == old(code)@ + digits(n as nat),
    decreases n,
{
    if n >= 10 {
        put_digits(code, n / 10);
    }
    code.append(digit_text((n % 10) as u8));
    assert(code@ =~= old(code)@ + digits(n as nat));
}

/// Appends `v` in decimal.
fn put_decimal(code: &mut String, v: i32)
    ensures
        final(code)@ == old(code)@ + decimal(v as int),
{
    if v < 0 {
        proof {
            reveal_strlit("-");
        }
        code.append("-");
        put_digits(code, (-(v as i64)) as u64);
        assert(code@ =~= old(code)@ + decimal(v as int));
    } else {
        put_digits(code, v as u64);
    }
}

/// Appends the text `s` of `line`, and notes the line in `done`.
fn put(
    code: &mut String,
    s: &str,
    Ghost(start): Ghost<Seq<char>>,
    done: &mut Ghost<Seq<Line>>,
    Ghost(line): Ghost<Line>,
)
    requires
        s@ == line.text(),
        old(code)@ == start + text(old(done)@),
    ensures
        final(code)@ == start + text(final(done)@),
        final(done)@ == old(done)@.push(line),
{
    code.append(s);
    proof {
        lemma_text_push(done@, line);
        assert(code@ =~= start + text(done@.push(line)));
    }
    *done = Ghost(done@.push(line));
}

/// Appends the instructions that push the address of the slot at `offset`.
pub fn gen_lval(code: &mut String, offset: usize)
    ensures
        final(code)@ == old(code)@ + text(address_lines(offset)),
{
    code.append("\n  mov rax, rbp\n\tsub rax, ");
    put_digits(code, offset as u64);
    code.append("\n\tpush rax\n\t\n");
    proof {
        let line = Line::SlotAddress(offset);
        lemma_text_push(Seq::empty(), line);
        assert(Seq::<Line>::empty().push(line) =~= address_lines(offset));
        assert(code@ =~= old(code)@ + text(address_lines(offset)));
    }
}

/// Appends the instruction that pushes the literal `v`.
fn put_push(code: &mut String, v: i32)
    ensures
        final(code)@ == old(code)@ + Line::Push(v).text(),
{
    code.append("  push ");
    put_decimal(code, v);
    code.append("\n");
    assert(code@ =~= old(code)@ + Line::Push(v).text());
}

/// Looks for a fault in `node`, in the order in which the tree is walked.
pub fn check(node: &Node) -> (r: Result<(), GenError>)
    ensures
        match r {
            Ok(_) => first_fault(*node) is None,
            Err(e) => first_fault(*node) == Some(e),
        },
    decreases node,
{
    match &node.kind {
        NodeKind::Num(_) => Ok(()),
        NodeKind::Lvar(_, _) => Ok(()),
        NodeKind::BinOp(op, lhs, rhs) => {
            check(lhs)?;
            check(rhs)?;
            match op {
                TokenKind::Plus
                | TokenKind::Minus
                | TokenKind::Mul
                | TokenKind::Div
                | TokenKind::EQ
                | TokenKind::NEQ
                | TokenKind::LeftAngleBracket
                | TokenKind::LE => Ok(()),
                _ => Err(GenError::BadOperator),
            }
        },
        NodeKind::Assign(target, value) => {
            match &target.kind {
                NodeKind::Lvar(_, _) => check(value),
                _ => Err(GenError::NotAssignable),
            }
        },
    }
}

/// Looks for a fault in the statements `nodes`, one after the other.
pub fn check_all(nodes: &Vec<Node>) -> (r: Result<(), GenError>)
    ensures
        match r {
            Ok(_) => fault_before(nodes@, nodes@.len() as int) is None,
            Err(e) => fault_before(nodes@, nodes@.len() as int) == Some(e),
        },
{
    let mut i: usize = 0;
    while i < nodes.len()
        invariant
            i <= nodes.len(),
            fault_before(nodes@, i as int) is None,
        decreases nodes.len() - i,
    {
        match check(&nodes[i]) {
            Ok(_) => {},
            Err(e) => {
                proof {
                    lemma_fault_stays(nodes@, i + 1, nodes@.len() as int);
                }
                return Err(e);
            },
        }
        i += 1;
    }
    Ok(())
}

/// Appends the instructions that push the address which an assignment to
/// `node` writes.
fn emit_address(code: &mut String, node: &Node)
    requires
        node.kind is Lvar,
    ensures
        final(code)@ == old(code)@ + text(target_lines(*node)),
{
    match &node.kind {
        NodeKind::Lvar(_, offset) => {
            gen_lval(code, *offset);
        },
        _ => {},
    }
}

/// Appends the instructions that apply `op` to `rax` and `rdi`.
fn emit_operator(
    code: &mut String,
    op: &TokenKind,
    Ghost(start): Ghost<Seq<char>>,
    done: &mut Ghost<Seq<Line>>,
)
    requires
        operator_lines(*op) is Some,
        old(code)@ == start + text(old(done)@),
    ensures
        final(code)@ == start + text(final(done)@),
        final(done)@ == old(done)@ + operator_lines(*op).unwrap(),
{
    match op {
        TokenKind::Plus => {
            put(code, "  add rax, rdi\n", Ghost(start), done, Ghost(Line::Add));
        },
        TokenKind::Minus => {
            put(code, "  sub rax, rdi\n", Ghost(start), done, Ghost(Line::Sub));
        },
        TokenKind::Mul => {
            put(code, "  imul rax, rdi\n", Ghost(start), done, Ghost(Line::Imul));
        },
        TokenKind::Div => {
            put(code, "  cqo\n", Ghost(start), done, Ghost(Line::Cqo));
            put(code, "  idiv rdi\n", Ghost(start), done, Ghost(Line::Idiv));
        },
        TokenKind::EQ => {
            put(code, "  cmp rax, rdi\n", Ghost(start), done, Ghost(Line::Cmp));
            put(code, "  sete al\n", Ghost(start), done, Ghost(Line::Sete));
            put(code, "  movzb rax, al\n", Ghost(start), done, Ghost(Line::Movzb));
        },
        TokenKind::NEQ => {
            put(code, "  cmp rax, rdi\n", Ghost(start), done, Ghost(Line::Cmp));
            put(code, "  setne al\n", Ghost(start), done, Ghost(Line::Setne));
            put(code, "  movzb rax, al\n", Ghost(start), done, Ghost(Line::Movzb));
        },
        TokenKind::LeftAngleBracket => {
            put(code, "  cmp rax, rdi\n", Ghost(start), done, Ghost(Line::Cmp));
            put(code, "  setl al\n", Ghost(start), done, Ghost(Line::Setl));
            put(code, "  movzb rax, al\n", Ghost(start), done, Ghost(Line::Movzb));
        },
        TokenKind::LE => {
            put(code, "  cmp rax, rdi\n", Ghost(start), done, Ghost(Line::Cmp));
            put(code, "  setle al\n", Ghost(start), done, Ghost(Line::Setle));
            put(code, "  movzb rax, al\n", Ghost(start), done, Ghost(Line::Movzb));
        },
        _ => {},
    }
    assert(done@ =~= old(done)@ + operator_lines(*op).unwrap());
}

/// Appends lines that were written by another step, and notes them.
proof fn lemma_join(start: Seq<char>, done: Seq<Line>, more: Seq<Line>)
    ensures
        start + text(done) + text(more) == start + text(done + more),
{
    lemma_text_concat(done, more);
    assert(start + text(done) + text(more) =~= start + (text(done) + text(more)));
}

/// Appends the instructions that push the value of `node`.
fn emit_value(code: &mut String, node: &Node)
    requires
        first_fault(*node) is None,
    ensures
        final(code)@ == old(code)@ + text(value_lines(*node)),
    decreases node,
{
    let ghost start = code@;
    let mut done: Ghost<Seq<Line>> = Ghost(Seq::empty());
    assert(code@ =~= start + text(done@));
    match &node.kind {
        NodeKind::Num(v) => {
            put_push(code, *v);
            proof {
                lemma_text_push(done@, Line::Push(*v));
                done@ = done@.push(Line::Push(*v));
                assert(code@ =~= start + text(done@));
            }
        },
        NodeKind::Lvar(_, offset) => {
            gen_lval(code, *offset);
            proof {
                lemma_join(start, done@, address_lines(*offset));
                done@ = done@ + address_lines(*offset);
            }
            put(code, "  pop rax\n", Ghost(start), &mut done, Ghost(Line::PopRax));
            put(code, "  mov rax, [rax]\n", Ghost(start), &mut done, Ghost(Line::Load));
            put(code, "  push rax\n", Ghost(start), &mut done, Ghost(Line::PushRax));
        },
        NodeKind::BinOp(op, lhs, rhs) => {
            emit_value(code, lhs);
            proof {
                lemma_join(start, done@, value_lines(**lhs));
                done@ = done@ + value_lines(**lhs);
            }
            emit_value(code, rhs);
            proof {
                lemma_join(start, done@, value_lines(**rhs));
                done@ = done@ + value_lines(**rhs);
            }
            put(code, "  pop rdi\n", Ghost(start), &mut done, Ghost(Line::PopRdi));
            put(code, "  pop rax\n", Ghost(start), &mut done, Ghost(Line::PopRax));
            emit_operator(code, op, Ghost(start), &mut done);
            put(code, "  push rax\n", Ghost(start), &mut done, Ghost(Line::PushRax));
        },
        NodeKind::Assign(target, value) => {
            emit_address(code, target);
            proof {
                lemma_join(start, done@, target_lines(**target));
                done@ = done@ + target_lines(**target);
            }
            emit_value(code, value);
            proof {
                lemma_join(start, done@, value_lines(**value));
                done@ = done@ + value_lines(**value);
            }
            put(code, "  pop rdi\n", Ghost(start), &mut done, Ghost(Line::PopRdi));
            put(code, "  pop rax\n", Ghost(start), &mut done, Ghost(Line::PopRax));
            put(code, "  mov [rax], rdi\n", Ghost(start), &mut done, Ghost(Line::Store));
            put(code, "  push rdi\n", Ghost(start), &mut done, Ghost(Line::PushRdi));
        },
    }
    assert(done@ =~= value_lines(*node));
}

/// Appends the instructions that push the value of `node`, or reports the
/// first fault of `node` and appends nothing.
pub fn gen(code: &mut String, node: Node) -> (r: Result<(), GenError>)
    ensures
        match first_fault(node) {
            Some(e) => r == Err::<(), GenError>(e) && final(code)@ == old(code)@,
            None => r is Ok && final(code)@ == old(code)@ + text(value_lines(node)),
        },
{
    match check(&node) {
        Ok(_) => {
            emit_value(code, &node);
            Ok(())
        },
        Err(e) => Err(e),
    }
}

/// Generates the routine for the statements `nodes`, or reports the first
/// fault of the first statement that has one.
pub fn codegen(nodes: Vec<Node>) -> (r: Result<String, GenError>)
    ensures
        program_text(nodes@) == generated(r),
{
    let mut s = String::new();
    let ghost start = s@;
    let mut done: Ghost<Seq<Line>> = Ghost(Seq::empty());
    assert(s@ =~= start + text(done@));
    put(&mut s, ".intel_syntax noprefix\n", Ghost(start), &mut done, Ghost(Line::IntelSyntax));
    put(&mut s, ".globl main\n", Ghost(start), &mut done, Ghost(Line::Global));
    put(&mut s, "main:\n", Ghost(start), &mut done, Ghost(Line::Label));
    put(&mut s, "  # prologue start\n", Ghost(start), &mut done, Ghost(Line::PrologueStart));
    put(&mut s, "  push rbp\n", Ghost(start), &mut done, Ghost(Line::PushRbp));
    put(&mut s, "  mov rbp, rsp\n", Ghost(start), &mut done, Ghost(Line::MovRbpRsp));
    put(&mut s, "  sub rsp, 208\n", Ghost(start), &mut done, Ghost(Line::ReserveFrame));
    put(&mut s, "  # prologue end\n", Ghost(start), &mut done, Ghost(Line::PrologueEnd));
    assert(done@ =~= opening_lines() + body_lines(nodes@, 0));
    let mut i: usize = 0;
    while i < nodes.len()
        invariant
            i <= nodes.len(),
            start == Seq::<char>::empty(),
            s@ == start + text(done@),
            done@ == opening_lines() + body_lines(nodes@, i as int),
            fault_before(nodes@, i as int) is None,
        decreases nodes.len() - i,
    {
        let node = &nodes[i];
        match check(node) {
            Ok(_) => {},
            Err(e) => {
                proof {
                    lemma_fault_stays(nodes@, i + 1, nodes@.len() as int);
                }
                return Err(e);
            },
        }
        emit_value(&mut s, node);
        proof {
            lemma_join(start, done@, value_lines(*node));
            done@ = done@ + value_lines(*node);
        }
        put(&mut s, "  pop rax\n", Ghost(start), &mut done, Ghost(Line::PopRax));
        put(&mut s, "  # stmt-fin \n", Ghost(start), &mut done, Ghost(Line::StatementEnd));
        assert(done@ =~= opening_lines() + body_lines(nodes@, i + 1));
        i += 1;
    }
    put(&mut s, "  # epilogue\n", Ghost(start), &mut done, Ghost(Line::Epilogue));
    put(&mut s, "  mov rsp, rbp\n", Ghost(start), &mut done, Ghost(Line::MovRspRbp));
    put(&mut s, "  pop rbp\n", Ghost(start), &mut done, Ghost(Line::PopRbp));
    put(&mut s, "  ret\n", Ghost(start), &mut done, Ghost(Line::Ret));
    assert(done@ =~= program_lines(nodes@));
    assert(s@ =~= text(program_lines(nodes@)));
    Ok(s)
}

} // verus!
