//! What the source means: the value of an expression and what it does to
//! the variables, in the arithmetic of signed 64-bit integers.
use vstd::prelude::*;

use crate::codegen::first_fault;
use crate::parse::{assign_node, grammatical, is_variable_name, var_node, Node, NodeKind};
use crate::token::TokenKind;

verus! {

/// The number of values of a 64-bit register.
pub open spec fn modulus() -> int {
    0x1_0000_0000_0000_0000
}

/// Whether `x` is a signed 64-bit integer.
pub open spec fn in_range(x: int) -> bool {
    -0x8000_0000_0000_0000 <= x < 0x8000_0000_0000_0000
}

/// The signed 64-bit integer that is congruent to `x`.
#[verifier::opaque]
pub open spec fn wrap(x: int) -> int {
    let r = x % modulus();
    if r >= 0x8000_0000_0000_0000 {
        r - modulus()
    } else {
        r
    }
}

/// The quotient of `a` by `b`, rounded toward zero; `b` is not zero.
#[verifier::opaque]
pub open spec fn quotient(a: int, b: int) -> int {
    if a >= 0 && b > 0 {
        a / b
    } else if a >= 0 {
        -(a / (-b))
    } else if b > 0 {
        -((-a) / b)
    } else {
        (-a) / (-b)
    }
}

/// A truth value as the integer that a comparison leaves.
pub open spec fn truth(b: bool) -> int {
    if b {
        1
    } else {
        0
    }
}

/// A wrapped integer is a signed 64-bit integer, and wrapping leaves such
/// an integer as it is.
pub proof fn lemma_wrap(x: int)
    ensures
        in_range(wrap(x)),
        in_range(x) ==> wrap(x) == x,
{
    reveal(wrap);
}

/// The values of the variables, by name.
pub type Env = Map<char, int>;

/// What a binary operator makes of `a` and `b`: sums, differences and
/// products wrap, a quotient is rounded toward zero, a comparison gives 1
/// or 0.  `None` for a division that the processor refuses (by zero, or of
/// the least integer by -1), and for a token that is no operator.
pub open spec fn apply(op: TokenKind, a: int, b: int) -> Option<int> {
    match op {
        TokenKind::Plus => Some(wrap(a + b)),
        TokenKind::Minus => Some(wrap(a - b)),
        TokenKind::Mul => Some(wrap(a * b)),
        TokenKind::Div => if b == 0 || !in_range(quotient(a, b)) {
            None
        } else {
            Some(quotient(a, b))
        },
        TokenKind::EQ => Some(truth(a == b)),
        TokenKind::NEQ => Some(truth(a != b)),
        TokenKind::LeftAngleBracket => Some(truth(a < b)),
        TokenKind::LE => Some(truth(a <= b)),
        _ => None,
    }
}

/// The value of `node` where the variables hold `env`, with the values
/// that they hold afterwards.  The left operand is evaluated before the
/// right one; an assignment has the value that it assigns.
pub open spec fn eval(node: Node, env: Env) -> Option<(int, Env)>
    decreases node,
{
    match node.kind {
        NodeKind::Num(v) => Some((v as int, env)),
        NodeKind::Lvar(c, _) => Some((env[c], env)),
        NodeKind::BinOp(op, lhs, rhs) => match eval(*lhs, env) {
            Some((a, env1)) => match eval(*rhs, env1) {
                Some((b, env2)) => match apply(op, a, b) {
                    Some(v) => Some((v, env2)),
                    None => None,
                },
                None => None,
            },
            None => None,
        },
        NodeKind::Assign(target, value) => match eval(*value, env) {
            Some((v, env1)) => match target.kind {
                NodeKind::Lvar(c, _) => Some((v, env1.insert(c, v))),
                _ => None,
            },
            None => None,
        },
    }
}

/// Every variable holds a signed 64-bit integer.
pub open spec fn bounded(env: Env) -> bool {
    forall|c: char| is_variable_name(c) ==> in_range(#[trigger] env[c])
}

/// The value of the last of the first `n` statements of `nodes`, run one
/// after the other from `env`, with the values that the variables hold in
/// the end; no value where `n` is zero, and `None` once a statement has
/// none.
pub open spec fn eval_all(nodes: Seq<Node>, n: int, env: Env) -> Option<(Option<int>, Env)>
    decreases n,
{
    if n <= 0 {
        Some((None, env))
    } else {
        match eval_all(nodes, n - 1, env) {
            Some((_, env1)) => match eval(nodes[n - 1], env1) {
                Some((v, env2)) => Some((Some(v), env2)),
                None => None,
            },
            None => None,
        }
    }
}

/// A quotient is rounded toward zero: the remainder is smaller than the
/// divisor in magnitude, and is zero or has the sign of the dividend.
pub proof fn lemma_quotient_truncates(a: int, b: int)
    requires
        b != 0,
    ensures
        ({
            let r = a - quotient(a, b) * b;
            &&& a >= 0 ==> 0 <= r
            &&& a <= 0 ==> r <= 0
            &&& b > 0 ==> -b < r < b
            &&& b < 0 ==> b < r < -b
        }),
{
    reveal(quotient);
    if a >= 0 && b > 0 {
        lemma_division_of_naturals(a, b);
    } else if a >= 0 {
        lemma_division_of_naturals(a, -b);
        let q = a / (-b);
        assert((-q) * b == q * (-b)) by (nonlinear_arith);
    } else if b > 0 {
        lemma_division_of_naturals(-a, b);
        let q = (-a) / b;
        assert((-q) * b == -(q * b)) by (nonlinear_arith);
    } else {
        lemma_division_of_naturals(-a, -b);
        let q = (-a) / (-b);
        assert(q * b == -(q * (-b))) by (nonlinear_arith);
    }
}

/// Division of a natural number by a positive one leaves a remainder below
/// the divisor.
proof fn lemma_division_of_naturals(x: int, y: int)
    requires
        x >= 0,
        y > 0,
    ensures
        0 <= x - (x / y) * y < y,
        0 <= x / y <= x,
{
    vstd::arithmetic::div_mod::lemma_fundamental_div_mod(x, y);
    vstd::arithmetic::div_mod::lemma_mod_bound(x, y);
    assert((x / y) * y == y * (x / y)) by (nonlinear_arith);
    vstd::arithmetic::div_mod::lemma_div_pos_is_pos(x, y);
    vstd::arithmetic::div_mod::lemma_div_is_ordered_by_denominator(x, 1, y);
}

/// A comparison yields 1 where it holds and 0 where it does not, and no
/// other value.
pub proof fn lemma_comparison_yields_bit(op: TokenKind, a: int, b: int)
    requires
        op is EQ || op is NEQ || op is LeftAngleBracket || op is LE,
    ensures
        apply(op, a, b) == Some(1int) || apply(op, a, b) == Some(0int),
        apply(TokenKind::EQ, a, b) == Some(1int) <==> a == b,
        apply(TokenKind::NEQ, a, b) == Some(1int) <==> a != b,
        apply(TokenKind::LeftAngleBracket, a, b) == Some(1int) <==> a < b,
        apply(TokenKind::LE, a, b) == Some(1int) <==> a <= b,
{
}

/// An assignment has the value that it assigns, and a read of the variable
/// behind it yields that value.
pub proof fn lemma_assignment_value(c: char, value: Node, env: Env)
    requires
        eval(value, env) is Some,
    ensures
        ({
            let (v, env1) = eval(value, env).unwrap();
            let (w, env2) = eval(assign_node(var_node(c), value), env).unwrap();
            &&& eval(assign_node(var_node(c), value), env) is Some
            &&& w == v
            &&& env2 == env1.insert(c, v)
            &&& eval(var_node(c), env2) == Some((v, env2))
        }),
{
}

/// A chain of assignments binds every variable in it to the value of its
/// last member, and has that value.
pub proof fn lemma_assignment_chain(c: char, d: char, value: Node, env: Env)
    requires
        eval(value, env) is Some,
    ensures
        ({
            let (v, env1) = eval(value, env).unwrap();
            let (w, env2) = eval(
                assign_node(var_node(c), assign_node(var_node(d), value)),
                env,
            ).unwrap();
            &&& w == v
            &&& env2[c] == v
            &&& env2[d] == v
            &&& env2 == env1.insert(d, v).insert(c, v)
        }),
{
    lemma_assignment_value(d, value, env);
    lemma_assignment_value(c, assign_node(var_node(d), value), env);
}

/// An expression of literals, sums, differences and products only.
pub open spec fn is_arithmetic(node: Node) -> bool
    decreases node,
{
    match node.kind {
        NodeKind::Num(_) => true,
        NodeKind::BinOp(op, lhs, rhs) => (op is Plus || op is Minus || op is Mul) && is_arithmetic(
            *lhs,
        ) && is_arithmetic(*rhs),
        _ => false,
    }
}

/// The value of an arithmetic expression in the integers.
pub open spec fn exact(node: Node) -> int
    decreases node,
{
    match node.kind {
        NodeKind::Num(v) => v as int,
        NodeKind::BinOp(op, lhs, rhs) => match op {
            TokenKind::Plus => exact(*lhs) + exact(*rhs),
            TokenKind::Minus => exact(*lhs) - exact(*rhs),
            _ => exact(*lhs) * exact(*rhs),
        },
        _ => 0,
    }
}

/// Whether the exact value of every part of an arithmetic expression is a
/// signed 64-bit integer.
pub open spec fn fits(node: Node) -> bool
    decreases node,
{
    in_range(exact(node)) && match node.kind {
        NodeKind::BinOp(_, lhs, rhs) => fits(*lhs) && fits(*rhs),
        _ => true,
    }
}

/// An arithmetic expression whose parts all fit has its exact value, and
/// changes no variable.
pub proof fn lemma_exact(node: Node, env: Env)
    requires
        is_arithmetic(node),
        fits(node),
    ensures
        eval(node, env) == Some((exact(node), env)),
    decreases node,
{
    match node.kind {
        NodeKind::BinOp(op, lhs, rhs) => {
            lemma_exact(*lhs, env);
            lemma_exact(*rhs, env);
            lemma_wrap(exact(node));
        },
        _ => {},
    }
}

/// Variables that all hold zero.
pub open spec fn zeros() -> Env {
    Map::new(|c: char| is_variable_name(c), |c: char| 0int)
}

/// How a run of statements ended.
#[derive(Debug, Clone, Copy, PartialEq, Eq, Structural)]
pub enum Outcome {
    /// there was no statement
    Nothing,
    /// every statement had a value, and this is the value of the last
    Value(i64),
    /// a division had no value
    DivideError,
}

impl Outcome {
    /// The value that the run left, if it left one; `None` for a run that a
    /// division stopped.
    pub open spec fn last(self) -> Option<Option<int>> {
        match self {
            Outcome::Nothing => Some(None),
            Outcome::Value(v) => Some(Some(v as int)),
            Outcome::DivideError => None,
        }
    }
}

/// The value that a run of statements left, without the variables.
pub open spec fn last_value(r: Option<(Option<int>, Env)>) -> Option<Option<int>> {
    match r {
        Some((last, _)) => Some(last),
        None => None,
    }
}

/// An arithmetic expression is a tree of the grammar without a fault.
pub proof fn lemma_arithmetic_is_meaningful(node: Node)
    requires
        is_arithmetic(node),
    ensures
        grammatical(node),
        first_fault(node) is None,
    decreases node,
{
    match node.kind {
        NodeKind::BinOp(op, lhs, rhs) => {
            lemma_arithmetic_is_meaningful(*lhs);
            lemma_arithmetic_is_meaningful(*rhs);
        },
        _ => {},
    }
}

/// The values of the 26 variables.
pub struct Variables {
    cells: Vec<i64>,
}

impl Variables {
    /// There is one cell for each name.
    pub closed spec fn wf(&self) -> bool {
        self.cells@.len() == 26
    }

    /// The value of each variable.
    pub closed spec fn env(&self) -> Env {
        Map::new(
            |c: char| is_variable_name(c),
            |c: char| self.cells@[c as int - 'a' as int] as int,
        )
    }

    /// Variables that all hold zero.
    pub fn new() -> (r: Variables)
        ensures
            r.wf(),
            r.env() == zeros(),
    {
        let mut cells: Vec<i64> = Vec::new();
        while cells.len() < 26
            invariant
                cells@.len() <= 26,
                forall|i: int| 0 <= i < cells@.len() ==> cells@[i] == 0,
            decreases 26 - cells@.len(),
        {
            cells.push(0);
        }
        let r = Variables { cells };
        assert(r.env() =~= zeros());
        r
    }

    /// The value of the variable `c`.
    pub fn get(&self, c: char) -> (v: i64)
        requires
            self.wf(),
            is_variable_name(c),
        ensures
            v == self.env()[c],
    {
        self.cells[(c as u8 - 97u8) as usize]
    }

    /// Gives the variable `c` the value `v`.
    pub fn set(&mut self, c: char, v: i64)
        requires
            old(self).wf(),
            is_variable_name(c),
        ensures
            final(self).wf(),
            final(self).env() == old(self).env().insert(c, v as int),
    {
        self.cells.set((c as u8 - 97u8) as usize, v);
        assert(self.env() =~= old(self).env().insert(c, v as int));
    }
}

/// How a sum or difference of two 64-bit integers wraps.
proof fn lemma_wrap_near(x: int)
    requires
        -modulus() <= x < modulus(),
    ensures
        wrap(x) == if x > i64::MAX {
            x - modulus()
        } else if x < i64::MIN {
            x + modulus()
        } else {
            x
        },
{
    reveal(wrap);
}

/// The distance of `v` from zero.
fn magnitude(v: i64) -> (r: u64)
    ensures
        r == if v < 0 {
            -v
        } else {
            v as int
        },
{
    if v < 0 {
        (0 - (v as i128)) as u64
    } else {
        v as u64
    }
}

/// The quotient of `a` by `b`, where the processor has one.
fn divide(a: i64, b: i64) -> (r: Option<i64>)
    ensures
        r == if b == 0 || !in_range(quotient(a as int, b as int)) {
            None
        } else {
            Some(quotient(a as int, b as int) as i64)
        },
{
    proof {
        if b != 0 {
            lemma_quotient_truncates(a as int, b as int);
            lemma_quotient_bound(a as int, b as int);
        }
    }
    if b == 0 || (a == i64::MIN && b == -1) {
        None
    } else {
        let negative = (a < 0) != (b < 0);
        let x: u64 = magnitude(a);
        let y: u64 = magnitude(b);
        let q: u64 = x / y;
        proof {
            reveal(quotient);
        }
        if negative {
            Some((0 - (q as i128)) as i64)
        } else {
            Some(q as i64)
        }
    }
}

/// A quotient is no larger in magnitude than the dividend, and reaches
/// the magnitude of the least 64-bit integer only where that is divided by
/// 1 or -1.
proof fn lemma_quotient_bound(a: int, b: int)
    requires
        b != 0,
        in_range(a),
    ensures
        -0x8000_0000_0000_0000 <= quotient(a, b) <= 0x8000_0000_0000_0000,
        quotient(a, b) == 0x8000_0000_0000_0000 <==> a == -0x8000_0000_0000_0000 && b == -1,
{
    reveal(quotient);
    if a >= 0 && b > 0 {
        lemma_division_of_naturals(a, b);
    } else if a >= 0 {
        lemma_division_of_naturals(a, -b);
    } else if b > 0 {
        lemma_division_of_naturals(-a, b);
    } else {
        lemma_division_of_naturals(-a, -b);
        let q = (-a) / (-b);
        if q == 0x8000_0000_0000_0000 {
            assert(q * (-b) >= q) by (nonlinear_arith)
                requires
                    -b >= 1,
                    q >= 0,
            ;
            assert(b == -1) by (nonlinear_arith)
                requires
                    q * (-b) <= -a,
                    -a <= q,
                    q > 0,
                    -b >= 1,
            ;
        }
        if a == -0x8000_0000_0000_0000 && b == -1 {
            assert(q == -a) by (nonlinear_arith)
                requires
                    0 <= -a - q * 1 < 1,
            ;
        }
    }
}

/// What a binary operator makes of `a` and `b`.
pub fn compute(op: &TokenKind, a: i64, b: i64) -> (r: Option<i64>)
    ensures
        match apply(*op, a as int, b as int) {
            Some(v) => r == Some(v as i64) && in_range(v),
            None => r is None,
        },
{
    match op {
        TokenKind::Plus => {
            proof {
                lemma_wrap_near(a + b);
            }
            Some(a.wrapping_add(b))
        },
        TokenKind::Minus => {
            proof {
                lemma_wrap_near(a - b);
            }
            Some(a.wrapping_sub(b))
        },
        TokenKind::Mul => {
            proof {
                reveal(wrap);
            }
            Some(a.wrapping_mul(b))
        },
        TokenKind::Div => divide(a, b),
        TokenKind::EQ => Some(if a == b { 1 } else { 0 }),
        TokenKind::NEQ => Some(if a != b { 1 } else { 0 }),
        TokenKind::LeftAngleBracket => Some(if a < b { 1 } else { 0 }),
        TokenKind::LE => Some(if a <= b { 1 } else { 0 }),
        _ => None,
    }
}

/// Whether all of `nodes` are trees of the grammar without a fault: the
/// trees that have a meaning.
pub open spec fn meaningful(nodes: Seq<Node>) -> bool {
    forall|i: int|
        0 <= i < nodes.len() ==> grammatical(#[trigger] nodes[i]) && first_fault(nodes[i]) is None
}

/// An expression with a value leaves every variable a signed 64-bit
/// integer, and has such a value.
pub proof fn lemma_eval_bounded(node: Node, env: Env)
    requires
        grammatical(node),
        first_fault(node) is None,
        bounded(env),
    ensures
        eval(node, env) matches Some((v, env1)) ==> in_range(v) && bounded(env1),
    decreases node,
{
    match node.kind {
        NodeKind::BinOp(op, lhs, rhs) => {
            lemma_eval_bounded(*lhs, env);
            if let Some((a, env1)) = eval(*lhs, env) {
                lemma_eval_bounded(*rhs, env1);
                if let Some((b, env2)) = eval(*rhs, env1) {
                    lemma_wrap(a + b);
                    lemma_wrap(a - b);
                    lemma_wrap(a * b);
                }
            }
        },
        NodeKind::Assign(target, value) => {
            lemma_eval_bounded(*value, env);
        },
        _ => {},
    }
}

/// Computes the value of `node` and does to the variables what it says;
/// `None` where it has no value.
pub fn evaluate(node: &Node, vars: &mut Variables) -> (r: Option<i64>)
    requires
        old(vars).wf(),
        bounded(old(vars).env()),
        grammatical(*node),
        first_fault(*node) is None,
    ensures
        final(vars).wf(),
        bounded(final(vars).env()),
        match eval(*node, old(vars).env()) {
            Some((v, env)) => r == Some(v as i64) && in_range(v) && final(vars).env() == env,
            None => r is None,
        },
    decreases node,
{
    proof {
        lemma_eval_bounded(*node, vars.env());
    }
    match &node.kind {
        NodeKind::Num(v) => Some(*v as i64),
        NodeKind::Lvar(c, _) => Some(vars.get(*c)),
        NodeKind::BinOp(op, lhs, rhs) => {
            let a = match evaluate(lhs, vars) {
                Some(a) => a,
                None => {
                    return None;
                },
            };
            let b = match evaluate(rhs, vars) {
                Some(b) => b,
                None => {
                    return None;
                },
            };
            compute(op, a, b)
        },
        NodeKind::Assign(target, value) => {
            let v = match evaluate(value, vars) {
                Some(v) => v,
                None => {
                    return None;
                },
            };
            proof {
                reveal_with_fuel(grammatical, 2);
            }
            match &target.kind {
                NodeKind::Lvar(c, _) => {
                    vars.set(*c, v);
                    Some(v)
                },
                _ => None,
            }
        },
    }
}

/// Runs the statements `nodes` one after the other, and tells the value
/// of the last.
pub fn evaluate_all(nodes: &Vec<Node>, vars: &mut Variables) -> (r: Outcome)
    requires
        old(vars).wf(),
        bounded(old(vars).env()),
        meaningful(nodes@),
    ensures
        final(vars).wf(),
        bounded(final(vars).env()),
        last_value(eval_all(nodes@, nodes@.len() as int, old(vars).env())) == r.last(),
        eval_all(nodes@, nodes@.len() as int, old(vars).env()) matches Some((_, env))
            ==> final(vars).env() == env,
{
    let mut last = Outcome::Nothing;
    let mut i: usize = 0;
    while i < nodes.len()
        invariant
            i <= nodes.len(),
            vars.wf(),
            bounded(vars.env()),
            meaningful(nodes@),
            !(last is DivideError),
            eval_all(nodes@, i as int, old(vars).env()) == Some((last.last().unwrap(), vars.env())),
        decreases nodes.len() - i,
    {
        match evaluate(&nodes[i], vars) {
            Some(v) => {
                last = Outcome::Value(v);
            },
            None => {
                proof {
                    lemma_eval_all_stays(nodes@, i + 1, nodes@.len() as int, old(vars).env());
                }
                return Outcome::DivideError;
            },
        }
        i += 1;
    }
    last
}

/// Once a statement has no value, no longer run has one.
pub proof fn lemma_eval_all_stays(nodes: Seq<Node>, k: int, n: int, env: Env)
    requires
        k <= n,
        eval_all(nodes, k, env) is None,
    ensures
        eval_all(nodes, n, env) is None,
    decreases n - k,
{
    if k < n {
        lemma_eval_all_stays(nodes, k, n - 1, env);
    }
}

} // verus!
