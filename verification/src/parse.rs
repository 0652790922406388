//! Syntax analysis: tokens to statement trees, by recursive descent with one
//! function for each layer of binding power.
use vstd::prelude::*;
use vstd::string::*;

use crate::error::{fault, ParseError, ParseFault};
use crate::token::{kinds, Tok, Token, TokenKind};

verus! {

/// The shapes of a tree node.
#[derive(Debug, PartialEq)]
pub enum NodeKind {
    /// integer literal
    Num(i32),
    /// binary operation: operator, left operand, right operand
    BinOp(TokenKind, Box<Node>, Box<Node>),
    /// assignment: target, value
    Assign(Box<Node>, Box<Node>),
    /// variable: name, offset of its slot below the frame base
    Lvar(char, usize),
}

/// A parsed expression.
#[derive(Debug, PartialEq)]
pub struct Node {
    pub kind: NodeKind,
}

/// The names that stand for a variable: the lower-case letters.
pub open spec fn is_variable_name(c: char) -> bool {
    'a' <= c <= 'z'
}

/// The slot of variable `c`: eight bytes for each letter, `a` nearest to
/// the frame base.
pub open spec fn slot_offset(c: char) -> int {
    (c as int - 'a' as int + 1) * 8
}

/// The slot that the word `name` resolves to: that of its letter, where it
/// is one lower-case letter.
pub open spec fn slot_of(name: Seq<char>) -> Option<int> {
    if name.len() == 1 && is_variable_name(name[0]) {
        Some(slot_offset(name[0]))
    } else {
        None
    }
}

/// The offset of the slot that belongs to the variable named `c`, if `c`
/// names one.
pub fn resolve_variable(c: char) -> (r: Option<usize>)
    ensures
        r == if is_variable_name(c) {
            Some(slot_offset(c) as usize)
        } else {
            None
        },
{
    if 'a' <= c && c <= 'z' {
        let index: usize = (c as u8 - 97u8) as usize;
        Some((index + 1) * 8)
    } else {
        None
    }
}

/// The literal `v` as a tree.
pub open spec fn num_node(v: i32) -> Node {
    Node { kind: NodeKind::Num(v) }
}

/// `lhs op rhs` as a tree.
pub open spec fn binop_node(op: TokenKind, lhs: Node, rhs: Node) -> Node {
    Node { kind: NodeKind::BinOp(op, Box::new(lhs), Box::new(rhs)) }
}

/// The variable `c` as a tree.
pub open spec fn var_node(c: char) -> Node {
    Node { kind: NodeKind::Lvar(c, slot_offset(c) as usize) }
}

/// `lhs = rhs` as a tree.
pub open spec fn assign_node(lhs: Node, rhs: Node) -> Node {
    Node { kind: NodeKind::Assign(Box::new(lhs), Box::new(rhs)) }
}

impl Node {
    /// A node of shape `kind`.
    pub fn new(kind: NodeKind) -> (r: Node)
        ensures
            r.kind == kind,
    {
        Node { kind }
    }

    /// The literal `v`.
    pub fn new_num(v: i32) -> (r: Node)
        ensures
            r == num_node(v),
    {
        Self::new(NodeKind::Num(v))
    }

    /// `lhs token_kind rhs`.
    pub fn new_binop(token_kind: TokenKind, lhs: Node, rhs: Node) -> (r: Node)
        ensures
            r == binop_node(token_kind, lhs, rhs),
    {
        Self::new(NodeKind::BinOp(token_kind, Box::new(lhs), Box::new(rhs)))
    }

    /// The variable named `c`, with the offset of its slot.
    pub fn new_ident(c: char) -> (r: Node)
        requires
            is_variable_name(c),
        ensures
            r == var_node(c),
    {
        let index: usize = (c as u8 - 97u8) as usize;
        Self::new(NodeKind::Lvar(c, (index + 1) * 8))
    }

    /// `lhs = rhs`.
    pub fn new_assign(lhs: Node, rhs: Node) -> (r: Node)
        ensures
            r == assign_node(lhs, rhs),
    {
        Self::new(NodeKind::Assign(Box::new(lhs), Box::new(rhs)))
    }
}

/// What a sub-parse yields: the tree and the index just behind the tokens it
/// took, or the fault that stopped it.
pub type Parsed = Result<(Node, int), ParseFault>;

/// The token at index `p`; behind the last token the end-of-input marker.
pub open spec fn at(t: Seq<Tok>, p: int) -> Tok {
    if 0 <= p < t.len() {
        t[p]
    } else {
        Tok::EOF
    }
}

/// How far index `p` is from the end of the tokens.
pub open spec fn left(t: Seq<Tok>, p: int) -> nat {
    if p < t.len() {
        (t.len() - p) as nat
    } else {
        0
    }
}

/// The layers of left-associative binary operators, tightest first.
pub ghost enum Layer {
    /// `*` `/`
    Term,
    /// `+` `-`
    Additive,
    /// `<` `<=` `>` `>=`
    Relational,
    /// `==` `!=`
    Equality,
}

impl Layer {
    /// The place of the layer among the four, the tightest first.
    pub open spec fn rank(self) -> nat {
        match self {
            Layer::Term => 0,
            Layer::Additive => 1,
            Layer::Relational => 2,
            Layer::Equality => 3,
        }
    }

    /// Whether `tok` is an operator of this layer, and if so the operator
    /// that the tree records for it, and whether the operands change places:
    /// `>` and `>=` are recorded as `<` and `<=` with the operands swapped.
    pub open spec fn operator(self, tok: Tok) -> Option<(TokenKind, bool)> {
        match self {
            Layer::Term => match tok {
                Tok::Mul => Some((TokenKind::Mul, false)),
                Tok::Div => Some((TokenKind::Div, false)),
                _ => None,
            },
            Layer::Additive => match tok {
                Tok::Plus => Some((TokenKind::Plus, false)),
                Tok::Minus => Some((TokenKind::Minus, false)),
                _ => None,
            },
            Layer::Relational => match tok {
                Tok::LE => Some((TokenKind::LE, false)),
                Tok::LeftAngleBracket => Some((TokenKind::LeftAngleBracket, false)),
                Tok::RE => Some((TokenKind::LE, true)),
                Tok::RightAngleBracket => Some((TokenKind::LeftAngleBracket, true)),
                _ => None,
            },
            Layer::Equality => match tok {
                Tok::EQ => Some((TokenKind::EQ, false)),
                Tok::NEQ => Some((TokenKind::NEQ, false)),
                _ => None,
            },
        }
    }
}

/// `operand := number | name | '(' expression ')'`
pub open spec fn operand(t: Seq<Tok>, p: int) -> Parsed
    decreases left(t, p), 0nat,
{
    match at(t, p) {
        Tok::LeftParen => match expression(t, p + 1) {
            Ok((node, q)) => if at(t, q) == Tok::RightParen {
                Ok((node, q + 1))
            } else {
                Err(fault(Some(Tok::RightParen), at(t, q), q))
            },
            Err(e) => Err(e),
        },
        Tok::Ident(name) => if slot_of(name) is Some {
            Ok((var_node(name[0]), p + 1))
        } else {
            Err(fault(None, at(t, p), p))
        },
        Tok::Num(v) => Ok((num_node(v), p + 1)),
        found => Err(fault(None, found, p)),
    }
}

/// `unary := '+' operand | '-' operand | operand`, where `-x` stands for
/// `0 - x`.
pub open spec fn unary(t: Seq<Tok>, p: int) -> Parsed
    decreases left(t, p), 1nat,
{
    match at(t, p) {
        Tok::Plus => operand(t, p + 1),
        Tok::Minus => match operand(t, p + 1) {
            Ok((node, q)) => Ok((binop_node(TokenKind::Minus, num_node(0), node), q)),
            Err(e) => Err(e),
        },
        _ => operand(t, p),
    }
}

/// One operand of `layer`: a chain of the next tighter layer, or a unary
/// expression for the tightest.
pub open spec fn tighter(layer: Layer, t: Seq<Tok>, p: int) -> Parsed
    decreases left(t, p), 3 * layer.rank() + 3,
{
    match layer {
        Layer::Term => unary(t, p),
        Layer::Additive => chain(Layer::Term, t, p),
        Layer::Relational => chain(Layer::Additive, t, p),
        Layer::Equality => chain(Layer::Relational, t, p),
    }
}

/// `chain := tighter (operator tighter)*`, grouped to the left.
pub open spec fn chain(layer: Layer, t: Seq<Tok>, p: int) -> Parsed
    decreases left(t, p), 3 * layer.rank() + 4,
{
    chain_rest(layer, t, p, tighter(layer, t, p))
}

/// `lhs` joined with what follows an operator, the operands in the order
/// that the operator asks for.
pub open spec fn join(op: TokenKind, swap: bool, lhs: Node, rhs: Parsed) -> Parsed {
    match rhs {
        Ok((node, q)) => Ok(
            (
                if swap {
                    binop_node(op, node, lhs)
                } else {
                    binop_node(op, lhs, node)
                },
                q,
            ),
        ),
        Err(e) => Err(e),
    }
}

/// The rest of a chain whose operands so far make up `head`.  `head` began
/// at `floor` or behind it; the comparison with `floor` only serves the
/// measure, [`lemma_progress`] shows that it never fails.
pub open spec fn chain_rest(layer: Layer, t: Seq<Tok>, floor: int, head: Parsed) -> Parsed
    decreases left(t, floor), 3 * layer.rank() + 2,
{
    match head {
        Ok((lhs, q)) => match layer.operator(at(t, q)) {
            Some((op, swap)) => if floor < q {
                chain_rest(layer, t, q, join(op, swap, lhs, tighter(layer, t, q + 1)))
            } else {
                head
            },
            None => head,
        },
        Err(e) => Err(e),
    }
}

/// `assignment := equality ('=' assignment)?`, grouped to the right.  The
/// comparison of the two indices only serves the measure.
pub open spec fn assignment(t: Seq<Tok>, p: int) -> Parsed
    decreases left(t, p), 14nat,
{
    match chain(Layer::Equality, t, p) {
        Ok((lhs, q)) => if at(t, q) == Tok::Assign && p <= q {
            match assignment(t, q + 1) {
                Ok((rhs, end)) => Ok((assign_node(lhs, rhs), end)),
                Err(e) => Err(e),
            }
        } else {
            Ok((lhs, q))
        },
        Err(e) => Err(e),
    }
}

/// `expression := assignment`
pub open spec fn expression(t: Seq<Tok>, p: int) -> Parsed
    decreases left(t, p), 15nat,
{
    assignment(t, p)
}

/// `statement := expression ';'`
pub open spec fn statement(t: Seq<Tok>, p: int) -> Parsed {
    match expression(t, p) {
        Ok((node, q)) => if at(t, q) == Tok::SemiColon {
            Ok((node, q + 1))
        } else {
            Err(fault(Some(Tok::SemiColon), at(t, q), q))
        },
        Err(e) => Err(e),
    }
}

/// Every successful sub-parse takes at least one token and stops within
/// the tokens.
pub open spec fn advances(t: Seq<Tok>, p: int, r: Parsed) -> bool {
    r matches Ok((_, q)) ==> p < q <= t.len()
}

/// An operand takes at least one token.
proof fn lemma_operand_advances(t: Seq<Tok>, p: int)
    ensures
        advances(t, p, operand(t, p)),
    decreases left(t, p), 0nat,
{
    if at(t, p) == Tok::LeftParen {
        lemma_assignment_advances(t, p + 1);
    }
}

/// A signed operand takes at least one token.
proof fn lemma_unary_advances(t: Seq<Tok>, p: int)
    ensures
        advances(t, p, unary(t, p)),
    decreases left(t, p), 1nat,
{
    if at(t, p) == Tok::Plus || at(t, p) == Tok::Minus {
        lemma_operand_advances(t, p + 1);
    } else {
        lemma_operand_advances(t, p);
    }
}

/// An operand of a layer takes at least one token.
proof fn lemma_tighter_advances(layer: Layer, t: Seq<Tok>, p: int)
    ensures
        advances(t, p, tighter(layer, t, p)),
    decreases left(t, p), 3 * layer.rank() + 3,
{
    match layer {
        Layer::Term => lemma_unary_advances(t, p),
        Layer::Additive => lemma_chain_advances(Layer::Term, t, p),
        Layer::Relational => lemma_chain_advances(Layer::Additive, t, p),
        Layer::Equality => lemma_chain_advances(Layer::Relational, t, p),
    }
}

/// A chain takes at least one token.
proof fn lemma_chain_advances(layer: Layer, t: Seq<Tok>, p: int)
    ensures
        advances(t, p, chain(layer, t, p)),
    decreases left(t, p), 3 * layer.rank() + 4,
{
    lemma_tighter_advances(layer, t, p);
    lemma_chain_rest_advances(layer, t, p, tighter(layer, t, p));
}

/// The rest of a chain stops behind its head or further on.
proof fn lemma_chain_rest_advances(layer: Layer, t: Seq<Tok>, floor: int, head: Parsed)
    requires
        advances(t, floor, head),
    ensures
        advances(t, floor, chain_rest(layer, t, floor, head)),
    decreases left(t, floor), 3 * layer.rank() + 2,
{
    if let Ok((lhs, q)) = head {
        if let Some((op, swap)) = layer.operator(at(t, q)) {
            lemma_tighter_advances(layer, t, q + 1);
            lemma_chain_rest_advances(
                layer,
                t,
                q,
                join(op, swap, lhs, tighter(layer, t, q + 1)),
            );
        }
    }
}

/// An assignment takes at least one token.
proof fn lemma_assignment_advances(t: Seq<Tok>, p: int)
    ensures
        advances(t, p, assignment(t, p)),
        advances(t, p, expression(t, p)),
    decreases left(t, p), 14nat,
{
    lemma_chain_advances(Layer::Equality, t, p);
    if let Ok((lhs, q)) = chain(Layer::Equality, t, p) {
        if at(t, q) == Tok::Assign {
            lemma_assignment_advances(t, q + 1);
        }
    }
}

/// One turn of a chain: with an operator of the layer at `q`, the chain goes
/// on with the operand behind it, or stops on that operand's fault.
proof fn lemma_chain_step(layer: Layer, t: Seq<Tok>, floor: int, lhs: Node, q: int)
    requires
        floor < q,
        layer.operator(at(t, q)) is Some,
    ensures
        chain_rest(layer, t, floor, Ok((lhs, q))) == chain_rest(
            layer,
            t,
            q,
            join(
                layer.operator(at(t, q)).unwrap().0,
                layer.operator(at(t, q)).unwrap().1,
                lhs,
                tighter(layer, t, q + 1),
            ),
        ),
        tighter(layer, t, q + 1) matches Err(e) ==> chain_rest(layer, t, floor, Ok((lhs, q)))
            == Err::<(Node, int), ParseFault>(e),
        tighter(layer, t, q + 1) == match layer {
            Layer::Term => unary(t, q + 1),
            Layer::Additive => chain(Layer::Term, t, q + 1),
            Layer::Relational => chain(Layer::Additive, t, q + 1),
            Layer::Equality => chain(Layer::Relational, t, q + 1),
        },
{
}

/// Every layer of the grammar takes at least one token where it succeeds,
/// and never runs over the end of the tokens.  So the comparisons of
/// indices in [`chain_rest`] and [`assignment`] hold wherever they are
/// reached.
pub proof fn lemma_progress(t: Seq<Tok>, p: int)
    ensures
        advances(t, p, operand(t, p)),
        advances(t, p, unary(t, p)),
        forall|layer: Layer| advances(t, p, #[trigger] chain(layer, t, p)),
        advances(t, p, assignment(t, p)),
        advances(t, p, expression(t, p)),
        advances(t, p, statement(t, p)),
{
    lemma_operand_advances(t, p);
    lemma_unary_advances(t, p);
    assert forall|layer: Layer| advances(t, p, #[trigger] chain(layer, t, p)) by {
        lemma_chain_advances(layer, t, p);
    }
    lemma_assignment_advances(t, p);
}

/// `program := statement*`, up to the end-of-input marker.
pub open spec fn statements(t: Seq<Tok>, p: int) -> Result<Seq<Node>, ParseFault>
    decreases left(t, p),
{
    if at(t, p) == Tok::EOF {
        Ok(Seq::empty())
    } else {
        match statement(t, p) {
            Ok((node, q)) => {
                proof {
                    lemma_progress(t, p);
                }
                match statements(t, q) {
                    Ok(rest) => Ok(seq![node] + rest),
                    Err(e) => Err(e),
                }
            },
            Err(e) => Err(e),
        }
    }
}

/// The operators that a binary node of a parsed tree can carry.
pub open spec fn is_binary_operator(op: TokenKind) -> bool {
    op is Plus || op is Minus || op is Mul || op is Div || op is EQ || op is NEQ
        || op is LeftAngleBracket || op is LE
}

/// The trees that the grammar can produce: every binary node carries a
/// binary operator, and every variable is named by a lower-case letter and
/// carries the offset of that letter's slot.
pub open spec fn grammatical(node: Node) -> bool
    decreases node,
{
    match node.kind {
        NodeKind::Num(_) => true,
        NodeKind::Lvar(c, offset) => is_variable_name(c) && offset == slot_offset(c),
        NodeKind::BinOp(op, lhs, rhs) => is_binary_operator(op) && grammatical(*lhs)
            && grammatical(*rhs),
        NodeKind::Assign(target, value) => grammatical(*target) && grammatical(*value),
    }
}

/// A sub-parse that succeeds yields a tree of the grammar.
pub open spec fn well_built(r: Parsed) -> bool {
    r matches Ok((node, _)) ==> grammatical(node)
}

/// An operand is a tree of the grammar.
proof fn lemma_operand_built(t: Seq<Tok>, p: int)
    ensures
        well_built(operand(t, p)),
    decreases left(t, p), 0nat,
{
    if at(t, p) == Tok::LeftParen {
        lemma_assignment_built(t, p + 1);
    }
}

/// A signed operand is a tree of the grammar.
proof fn lemma_unary_built(t: Seq<Tok>, p: int)
    ensures
        well_built(unary(t, p)),
    decreases left(t, p), 1nat,
{
    reveal_with_fuel(grammatical, 2);
    if at(t, p) == Tok::Plus || at(t, p) == Tok::Minus {
        lemma_operand_built(t, p + 1);
    } else {
        lemma_operand_built(t, p);
    }
}

/// An operand of a layer is a tree of the grammar.
proof fn lemma_tighter_built(layer: Layer, t: Seq<Tok>, p: int)
    ensures
        well_built(tighter(layer, t, p)),
    decreases left(t, p), 3 * layer.rank() + 3,
{
    match layer {
        Layer::Term => lemma_unary_built(t, p),
        Layer::Additive => lemma_chain_built(Layer::Term, t, p),
        Layer::Relational => lemma_chain_built(Layer::Additive, t, p),
        Layer::Equality => lemma_chain_built(Layer::Relational, t, p),
    }
}

/// A chain is a tree of the grammar.
proof fn lemma_chain_built(layer: Layer, t: Seq<Tok>, p: int)
    ensures
        well_built(chain(layer, t, p)),
    decreases left(t, p), 3 * layer.rank() + 4,
{
    lemma_tighter_built(layer, t, p);
    lemma_chain_rest_built(layer, t, p, tighter(layer, t, p));
}

/// The rest of a chain keeps the tree one of the grammar.
proof fn lemma_chain_rest_built(layer: Layer, t: Seq<Tok>, floor: int, head: Parsed)
    requires
        well_built(head),
    ensures
        well_built(chain_rest(layer, t, floor, head)),
    decreases left(t, floor), 3 * layer.rank() + 2,
{
    if let Ok((lhs, q)) = head {
        if let Some((op, swap)) = layer.operator(at(t, q)) {
            if floor < q {
                lemma_tighter_built(layer, t, q + 1);
                lemma_chain_rest_built(
                    layer,
                    t,
                    q,
                    join(op, swap, lhs, tighter(layer, t, q + 1)),
                );
            }
        }
    }
}

/// An assignment is a tree of the grammar.
proof fn lemma_assignment_built(t: Seq<Tok>, p: int)
    ensures
        well_built(assignment(t, p)),
        well_built(expression(t, p)),
    decreases left(t, p), 14nat,
{
    lemma_chain_built(Layer::Equality, t, p);
    if let Ok((lhs, q)) = chain(Layer::Equality, t, p) {
        if at(t, q) == Tok::Assign && p <= q {
            lemma_assignment_built(t, q + 1);
        }
    }
}

/// Whatever the tokens, the parser yields only trees of the grammar: a
/// binary node of a parsed tree never carries a token that is no binary
/// operator, and a variable always carries the offset of its own slot.
pub proof fn lemma_parsed_grammatical(t: Seq<Tok>, p: int)
    ensures
        well_built(statement(t, p)),
        statements(t, p) matches Ok(nodes) ==> forall|i: int|
            0 <= i < nodes.len() ==> grammatical(#[trigger] nodes[i]),
    decreases left(t, p),
{
    lemma_assignment_built(t, p);
    if at(t, p) != Tok::EOF {
        if let Ok((node, q)) = statement(t, p) {
            lemma_progress(t, p);
            lemma_parsed_grammatical(t, q);
        }
    }
}

/// A tree written out as tokens, with every binary node and every
/// assignment in parentheses.
pub open spec fn written(node: Node) -> Seq<Tok>
    decreases node,
{
    match node.kind {
        NodeKind::Num(v) => seq![Tok::Num(v)],
        NodeKind::Lvar(c, _) => seq![Tok::Ident(seq![c])],
        NodeKind::BinOp(op, lhs, rhs) => seq![Tok::LeftParen] + written(*lhs) + seq![op@]
            + written(*rhs) + seq![Tok::RightParen],
        NodeKind::Assign(target, value) => seq![Tok::LeftParen] + written(*target) + seq![
            Tok::Assign,
        ] + written(*value) + seq![Tok::RightParen],
    }
}

/// The layer that a binary operator belongs to.
pub open spec fn layer_of(op: TokenKind) -> Layer {
    match op {
        TokenKind::Mul | TokenKind::Div => Layer::Term,
        TokenKind::Plus | TokenKind::Minus => Layer::Additive,
        TokenKind::LeftAngleBracket | TokenKind::LE => Layer::Relational,
        _ => Layer::Equality,
    }
}

/// Whether `tok` is no operator of any of the first `ranks` layers.
pub open spec fn quiet(tok: Tok, ranks: nat) -> bool {
    &&& ranks > 0 ==> Layer::Term.operator(tok) is None
    &&& ranks > 1 ==> Layer::Additive.operator(tok) is None
    &&& ranks > 2 ==> Layer::Relational.operator(tok) is None
    &&& ranks > 3 ==> Layer::Equality.operator(tok) is None
}

/// A written tree begins with a literal, a name or a parenthesis.
proof fn lemma_written_head(node: Node)
    ensures
        written(node).len() >= 1,
        written(node)[0] is Num || written(node)[0] is Ident || written(node)[0] is LeftParen,
{
}

/// An operand that no operator of the layer or a tighter one follows is a
/// chain of the layer by itself.
proof fn lemma_chain_of_one(layer: Layer, t: Seq<Tok>, p: int, node: Node, q: int)
    requires
        unary(t, p) == Ok::<(Node, int), ParseFault>((node, q)),
        quiet(at(t, q), layer.rank() + 1),
    ensures
        chain(layer, t, p) == Ok::<(Node, int), ParseFault>((node, q)),
    decreases layer.rank(),
{
    match layer {
        Layer::Term => {},
        Layer::Additive => lemma_chain_of_one(Layer::Term, t, p, node, q),
        Layer::Relational => lemma_chain_of_one(Layer::Additive, t, p, node, q),
        Layer::Equality => lemma_chain_of_one(Layer::Relational, t, p, node, q),
    }
}

/// A chain that no operator of a looser layer follows is a chain of every
/// looser layer by itself.
proof fn lemma_chain_passes(layer: Layer, t: Seq<Tok>, p: int, node: Node, q: int)
    requires
        chain(layer, t, p) == Ok::<(Node, int), ParseFault>((node, q)),
        quiet(at(t, q), 4),
    ensures
        chain(Layer::Equality, t, p) == Ok::<(Node, int), ParseFault>((node, q)),
    decreases 4 - layer.rank(),
{
    match layer {
        Layer::Term => {
            assert(chain(Layer::Additive, t, p) == Ok::<(Node, int), ParseFault>((node, q)));
            lemma_chain_passes(Layer::Additive, t, p, node, q);
        },
        Layer::Additive => {
            assert(chain(Layer::Relational, t, p) == Ok::<(Node, int), ParseFault>((node, q)));
            lemma_chain_passes(Layer::Relational, t, p, node, q);
        },
        Layer::Relational => {
            assert(chain(Layer::Equality, t, p) == Ok::<(Node, int), ParseFault>((node, q)));
        },
        Layer::Equality => {},
    }
}

/// Two operands with an operator between them and a closing parenthesis
/// behind them are one binary node.
proof fn lemma_chain_of_two(
    op: TokenKind,
    t: Seq<Tok>,
    p: int,
    lhs: Node,
    q: int,
    rhs: Node,
    end: int,
)
    requires
        is_binary_operator(op),
        unary(t, p) == Ok::<(Node, int), ParseFault>((lhs, q)),
        p < q,
        at(t, q) == op@,
        unary(t, q + 1) == Ok::<(Node, int), ParseFault>((rhs, end)),
        at(t, end) == Tok::RightParen,
    ensures
        chain(Layer::Equality, t, p) == Ok::<(Node, int), ParseFault>(
            (binop_node(op, lhs, rhs), end),
        ),
{
    let layer = layer_of(op);
    let node = binop_node(op, lhs, rhs);
    assert(layer.operator(op@) == Some((op, false)));
    match layer {
        Layer::Term => {},
        Layer::Additive => {
            lemma_chain_of_one(Layer::Term, t, p, lhs, q);
            lemma_chain_of_one(Layer::Term, t, q + 1, rhs, end);
        },
        Layer::Relational => {
            lemma_chain_of_one(Layer::Additive, t, p, lhs, q);
            lemma_chain_of_one(Layer::Additive, t, q + 1, rhs, end);
        },
        Layer::Equality => {
            lemma_chain_of_one(Layer::Relational, t, p, lhs, q);
            lemma_chain_of_one(Layer::Relational, t, q + 1, rhs, end);
        },
    }
    assert(tighter(layer, t, p) == Ok::<(Node, int), ParseFault>((lhs, q)));
    assert(tighter(layer, t, q + 1) == Ok::<(Node, int), ParseFault>((rhs, end)));
    lemma_chain_step(layer, t, p, lhs, q);
    assert(chain_rest(layer, t, q, Ok((node, end))) == Ok::<(Node, int), ParseFault>((node, end)));
    assert(chain(layer, t, p) == Ok::<(Node, int), ParseFault>((node, end)));
    lemma_chain_passes(layer, t, p, node, end);
}

/// Every tree of the grammar is read back from its tokens: written with
/// every binary node and every assignment in parentheses, it parses as an
/// operand to itself, wherever it stands among the tokens.  With
/// [`lemma_parsed_grammatical`] this makes the trees of the grammar exactly
/// the trees that the parser can yield.
pub proof fn lemma_reads_back(node: Node, t: Seq<Tok>, p: int)
    requires
        grammatical(node),
        0 <= p,
        p + written(node).len() <= t.len(),
        t.subrange(p, p + written(node).len()) == written(node),
    ensures
        operand(t, p) == Ok::<(Node, int), ParseFault>((node, p + written(node).len())),
    decreases node,
{
    let w = written(node);
    assert forall|i: int| 0 <= i < w.len() implies t[p + i] == #[trigger] w[i] by {
        assert(t.subrange(p, p + w.len())[i] == t[p + i]);
    }
    match node.kind {
        NodeKind::Num(v) => {
            assert(t[p] == w[0]);
        },
        NodeKind::Lvar(c, offset) => {
            assert(t[p] == w[0]);
        },
        NodeKind::BinOp(op, lhs, rhs) => {
            let wl = written(*lhs);
            let wr = written(*rhs);
            let q = p + 1 + wl.len();
            let end = q + 1 + wr.len();
            lemma_written_between(t, p, wl, op@, wr, w);
            lemma_reads_back(*lhs, t, p + 1);
            lemma_reads_back(*rhs, t, q + 1);
            lemma_written_head(*lhs);
            lemma_written_head(*rhs);
            assert(t[p + 1] == wl[0]);
            assert(t[q + 1] == wr[0]);
            lemma_chain_of_two(op, t, p + 1, *lhs, q, *rhs, end);
        },
        NodeKind::Assign(target, value) => {
            let wl = written(*target);
            let wr = written(*value);
            let q = p + 1 + wl.len();
            let end = q + 1 + wr.len();
            lemma_written_between(t, p, wl, Tok::Assign, wr, w);
            lemma_reads_back(*target, t, p + 1);
            lemma_reads_back(*value, t, q + 1);
            lemma_written_head(*target);
            lemma_written_head(*value);
            assert(t[p + 1] == wl[0]);
            assert(t[q + 1] == wr[0]);
            lemma_chain_of_one(Layer::Equality, t, p + 1, *target, q);
            lemma_chain_of_one(Layer::Equality, t, q + 1, *value, end);
        },
    }
}

/// Where the parts of a tree in parentheses stand among the tokens.
proof fn lemma_written_between(
    t: Seq<Tok>,
    p: int,
    wl: Seq<Tok>,
    middle: Tok,
    wr: Seq<Tok>,
    w: Seq<Tok>,
)
    requires
        0 <= p,
        p + w.len() <= t.len(),
        t.subrange(p, p + w.len()) == w,
        w == seq![Tok::LeftParen] + wl + seq![middle] + wr + seq![Tok::RightParen],
    ensures
        t[p] == Tok::LeftParen,
        t.subrange(p + 1, p + 1 + wl.len()) == wl,
        t[p + 1 + wl.len()] == middle,
        t.subrange(p + 2 + wl.len(), p + 2 + wl.len() + wr.len()) == wr,
        t[p + 2 + wl.len() + wr.len()] == Tok::RightParen,
        w.len() == wl.len() + wr.len() + 3,
{
    assert forall|i: int| 0 <= i < w.len() implies t[p + i] == #[trigger] w[i] by {
        assert(t.subrange(p, p + w.len())[i] == t[p + i]);
    }
    assert(t[p] == w[0]);
    assert(t[p + 1 + wl.len()] == w[1 + wl.len() as int]);
    assert(t[p + 2 + wl.len() + wr.len()] == w[2 + wl.len() as int + wr.len() as int]);
    assert(t.subrange(p + 1, p + 1 + wl.len()) =~= wl) by {
        assert forall|i: int| 0 <= i < wl.len() implies t[p + 1 + i] == wl[i] by {
            assert(t[p + (1 + i)] == w[1 + i]);
        }
    }
    assert(t.subrange(p + 2 + wl.len(), p + 2 + wl.len() + wr.len()) =~= wr) by {
        assert forall|i: int| 0 <= i < wr.len() implies t[p + 2 + wl.len() + i] == wr[i] by {
            assert(t[p + (2 + wl.len() + i)] == w[2 + wl.len() + i]);
        }
    }
}

/// `lhs > rhs` is kept as the tree of `rhs < lhs`, and `lhs >= rhs` as the
/// tree of `rhs <= lhs`: behind either operator the chain goes on with the
/// operand that follows on the left of the comparison and `lhs` on its
/// right.
pub proof fn lemma_greater_is_swapped_less(t: Seq<Tok>, floor: int, lhs: Node, q: int)
    requires
        floor < q,
        at(t, q) == Tok::RightAngleBracket || at(t, q) == Tok::RE,
    ensures
        chain_rest(Layer::Relational, t, floor, Ok((lhs, q))) == chain_rest(
            Layer::Relational,
            t,
            q,
            match chain(Layer::Additive, t, q + 1) {
                Ok((rhs, end)) => Ok(
                    (
                        binop_node(
                            if at(t, q) == Tok::RE {
                                TokenKind::LE
                            } else {
                                TokenKind::LeftAngleBracket
                            },
                            rhs,
                            lhs,
                        ),
                        end,
                    ),
                ),
                Err(e) => Err(e),
            },
        ),
{
    lemma_chain_step(Layer::Relational, t, floor, lhs, q);
}

/// Assignment groups to the right: where `=` follows what stands on its
/// left, the whole assignment behind it is the value that is assigned.
pub proof fn lemma_assignment_groups_right(t: Seq<Tok>, p: int)
    ensures
        chain(Layer::Equality, t, p) matches Ok((lhs, q)) ==> assignment(t, p) == if at(t, q)
            == Tok::Assign {
            match assignment(t, q + 1) {
                Ok((rhs, end)) => Ok((assign_node(lhs, rhs), end)),
                Err(e) => Err(e),
            }
        } else {
            Ok((lhs, q))
        },
{
    lemma_progress(t, p);
}

/// What the outcome of a parsing step that stopped at index `q` stands for.
pub open spec fn outcome(r: Result<Node, ParseError>, q: int) -> Parsed {
    match r {
        Ok(node) => Ok((node, q)),
        Err(e) => Err(e@),
    }
}

/// What the outcome of parsing a whole program stands for.
pub open spec fn parsed(r: Result<Vec<Node>, ParseError>) -> Result<Seq<Node>, ParseFault> {
    match r {
        Ok(nodes) => Ok(nodes@),
        Err(e) => Err(e@),
    }
}

/// A cursor over a token sequence.
pub struct Parser {
    tokens: Vec<Token>,
    pos: usize,
}

impl Parser {
    /// The tokens under the cursor.
    pub closed spec fn tokens(&self) -> Seq<Tok> {
        kinds(self.tokens@)
    }

    /// The index of the current token.
    pub closed spec fn cursor(&self) -> int {
        self.pos as int
    }

    /// A cursor at the first of `tokens`.
    pub fn new(tokens: Vec<Token>) -> (r: Parser)
        ensures
            r.tokens() == kinds(tokens@),
            r.cursor() == 0,
    {
        Parser { tokens, pos: 0 }
    }

    /// The current token, or `None` behind the last one.
    fn peek(&self) -> (r: Option<&Token>)
        ensures
            match r {
                Some(token) => {
                    &&& self.cursor() < self.tokens().len()
                    &&& self.cursor() < usize::MAX
                    &&& token@ == at(self.tokens(), self.cursor())
                },
                None => self.cursor() >= self.tokens().len(),
            },
    {
        if self.pos < self.tokens.len() {
            Some(&self.tokens[self.pos])
        } else {
            None
        }
    }

    /// The error that reports the current token where `expected` was due.
    fn unexpected(&self, expected: Option<TokenKind>) -> (r: ParseError)
        ensures
            r@ == fault(
                match expected {
                    Some(kind) => Some(kind@),
                    None => None,
                },
                at(self.tokens(), self.cursor()),
                self.cursor(),
            ),
    {
        match self.peek() {
            Some(token) => token.bad_token(expected, self.pos),
            None => Token::new_eof().bad_token(expected, self.pos),
        }
    }

    /// Steps over the current token if it is of kind `expect_token_kind`.
    pub fn consume(&mut self, expect_token_kind: TokenKind) -> (r: bool)
        ensures
            final(self).tokens() == old(self).tokens(),
            r == (old(self).cursor() < old(self).tokens().len() && at(
                old(self).tokens(),
                old(self).cursor(),
            ) == expect_token_kind@),
            final(self).cursor() == if r {
                old(self).cursor() + 1
            } else {
                old(self).cursor()
            },
    {
        let matches = match self.peek() {
            Some(token) => token.kind == expect_token_kind,
            None => false,
        };
        if matches {
            self.pos += 1;
        }
        matches
    }

    /// Steps over the current token if it is of kind `expect_token_kind`,
    /// and reports it otherwise.
    pub fn expect(&mut self, expect_token_kind: TokenKind) -> (r: Result<(), ParseError>)
        ensures
            final(self).tokens() == old(self).tokens(),
            match r {
                Ok(_) => {
                    &&& old(self).cursor() < old(self).tokens().len()
                    &&& at(old(self).tokens(), old(self).cursor()) == expect_token_kind@
                    &&& final(self).cursor() == old(self).cursor() + 1
                },
                Err(e) => {
                    &&& !(old(self).cursor() < old(self).tokens().len() && at(
                        old(self).tokens(),
                        old(self).cursor(),
                    ) == expect_token_kind@)
                    &&& e@ == fault(
                        Some(expect_token_kind@),
                        at(old(self).tokens(), old(self).cursor()),
                        old(self).cursor(),
                    )
                    &&& final(self).cursor() == old(self).cursor()
                },
            },
    {
        let matches = match self.peek() {
            Some(token) => token.kind == expect_token_kind,
            None => false,
        };
        if matches {
            self.pos += 1;
            Ok(())
        } else {
            Err(self.unexpected(Some(expect_token_kind)))
        }
    }

    /// `statement := expression ';'`
    pub fn stmt(&mut self) -> (r: Result<Node, ParseError>)
        ensures
            final(self).tokens() == old(self).tokens(),
            statement(old(self).tokens(), old(self).cursor()) == outcome(r, final(self).cursor()),
            advances(old(self).tokens(), old(self).cursor(), outcome(r, final(self).cursor())),
    {
        let node = self.expr()?;
        self.expect(TokenKind::SemiColon)?;
        Ok(node)
    }

    /// `expression := assignment`
    pub fn expr(&mut self) -> (r: Result<Node, ParseError>)
        ensures
            final(self).tokens() == old(self).tokens(),
            expression(old(self).tokens(), old(self).cursor()) == outcome(r, final(self).cursor()),
            advances(old(self).tokens(), old(self).cursor(), outcome(r, final(self).cursor())),
        decreases left(old(self).tokens(), old(self).cursor()), 15nat,
    {
        self.assign()
    }

    /// `assignment := equality ('=' assignment)?`
    pub fn assign(&mut self) -> (r: Result<Node, ParseError>)
        ensures
            final(self).tokens() == old(self).tokens(),
            assignment(old(self).tokens(), old(self).cursor()) == outcome(r, final(self).cursor()),
            advances(old(self).tokens(), old(self).cursor(), outcome(r, final(self).cursor())),
        decreases left(old(self).tokens(), old(self).cursor()), 14nat,
    {
        let node = self.equality()?;
        if self.consume(TokenKind::Assign) {
            let value = self.assign()?;
            return Ok(Node::new_assign(node, value));
        }
        Ok(node)
    }

    /// `equality := relational (('==' | '!=') relational)*`
    pub fn equality(&mut self) -> (r: Result<Node, ParseError>)
        ensures
            final(self).tokens() == old(self).tokens(),
            chain(Layer::Equality, old(self).tokens(), old(self).cursor()) == outcome(
                r,
                final(self).cursor(),
            ),
            advances(old(self).tokens(), old(self).cursor(), outcome(r, final(self).cursor())),
        decreases left(old(self).tokens(), old(self).cursor()), 13nat,
    {
        let ghost t = self.tokens();
        let ghost start = self.cursor();
        let ghost mut floor = start;
        let mut node = self.relational()?;
        loop
            invariant
                self.tokens() == t,
                t == old(self).tokens(),
                start == old(self).cursor(),
                start <= floor < self.cursor() <= t.len(),
                chain_rest(Layer::Equality, t, floor, Ok((node, self.cursor()))) == chain(
                    Layer::Equality,
                    t,
                    start,
                ),
            decreases left(t, self.cursor()),
        {
            let ghost here = self.cursor();
            let ghost lhs = node;
            if self.consume(TokenKind::EQ) {
                proof {
                    lemma_chain_step(Layer::Equality, t, floor, lhs, here);
                }
                let rhs = self.relational()?;
                node = Node::new_binop(TokenKind::EQ, node, rhs);
                proof {
                    floor = here;
                }
            } else if self.consume(TokenKind::NEQ) {
                proof {
                    lemma_chain_step(Layer::Equality, t, floor, lhs, here);
                }
                let rhs = self.relational()?;
                node = Node::new_binop(TokenKind::NEQ, node, rhs);
                proof {
                    floor = here;
                }
            } else {
                return Ok(node);
            }
        }
    }

    /// `relational := additive (('<' | '<=' | '>' | '>=') additive)*`, with
    /// `a > b` kept as `b < a` and `a >= b` as `b <= a`.
    pub fn relational(&mut self) -> (r: Result<Node, ParseError>)
        ensures
            final(self).tokens() == old(self).tokens(),
            chain(Layer::Relational, old(self).tokens(), old(self).cursor()) == outcome(
                r,
                final(self).cursor(),
            ),
            advances(old(self).tokens(), old(self).cursor(), outcome(r, final(self).cursor())),
        decreases left(old(self).tokens(), old(self).cursor()), 10nat,
    {
        let ghost t = self.tokens();
        let ghost start = self.cursor();
        let ghost mut floor = start;
        let mut node = self.add()?;
        loop
            invariant
                self.tokens() == t,
                t == old(self).tokens(),
                start == old(self).cursor(),
                start <= floor < self.cursor() <= t.len(),
                chain_rest(Layer::Relational, t, floor, Ok((node, self.cursor()))) == chain(
                    Layer::Relational,
                    t,
                    start,
                ),
            decreases left(t, self.cursor()),
        {
            let ghost here = self.cursor();
            let ghost lhs = node;
            if self.consume(TokenKind::LE) {
                proof {
                    lemma_chain_step(Layer::Relational, t, floor, lhs, here);
                }
                let rhs = self.add()?;
                node = Node::new_binop(TokenKind::LE, node, rhs);
                proof {
                    floor = here;
                }
            } else if self.consume(TokenKind::LeftAngleBracket) {
                proof {
                    lemma_chain_step(Layer::Relational, t, floor, lhs, here);
                }
                let rhs = self.add()?;
                node = Node::new_binop(TokenKind::LeftAngleBracket, node, rhs);
                proof {
                    floor = here;
                }
            } else if self.consume(TokenKind::RE) {
                proof {
                    lemma_chain_step(Layer::Relational, t, floor, lhs, here);
                }
                let rhs = self.add()?;
                node = Node::new_binop(TokenKind::LE, rhs, node);
                proof {
                    floor = here;
                }
            } else if self.consume(TokenKind::RightAngleBracket) {
                proof {
                    lemma_chain_step(Layer::Relational, t, floor, lhs, here);
                }
                let rhs = self.add()?;
                node = Node::new_binop(TokenKind::LeftAngleBracket, rhs, node);
                proof {
                    floor = here;
                }
            } else {
                return Ok(node);
            }
        }
    }

    /// `additive := term (('+' | '-') term)*`
    pub fn add(&mut self) -> (r: Result<Node, ParseError>)
        ensures
            final(self).tokens() == old(self).tokens(),
            chain(Layer::Additive, old(self).tokens(), old(self).cursor()) == outcome(
                r,
                final(self).cursor(),
            ),
            advances(old(self).tokens(), old(self).cursor(), outcome(r, final(self).cursor())),
        decreases left(old(self).tokens(), old(self).cursor()), 7nat,
    {
        let ghost t = self.tokens();
        let ghost start = self.cursor();
        let ghost mut floor = start;
        let mut node = self.mul()?;
        loop
            invariant
                self.tokens() == t,
                t == old(self).tokens(),
                start == old(self).cursor(),
                start <= floor < self.cursor() <= t.len(),
                chain_rest(Layer::Additive, t, floor, Ok((node, self.cursor()))) == chain(
                    Layer::Additive,
                    t,
                    start,
                ),
            decreases left(t, self.cursor()),
        {
            let ghost here = self.cursor();
            let ghost lhs = node;
            if self.consume(TokenKind::Plus) {
                proof {
                    lemma_chain_step(Layer::Additive, t, floor, lhs, here);
                }
                let rhs = self.mul()?;
                node = Node::new_binop(TokenKind::Plus, node, rhs);
                proof {
                    floor = here;
                }
            } else if self.consume(TokenKind::Minus) {
                proof {
                    lemma_chain_step(Layer::Additive, t, floor, lhs, here);
                }
                let rhs = self.mul()?;
                node = Node::new_binop(TokenKind::Minus, node, rhs);
                proof {
                    floor = here;
                }
            } else {
                return Ok(node);
            }
        }
    }

    /// `term := unary (('*' | '/') unary)*`
    pub fn mul(&mut self) -> (r: Result<Node, ParseError>)
        ensures
            final(self).tokens() == old(self).tokens(),
            chain(Layer::Term, old(self).tokens(), old(self).cursor()) == outcome(
                r,
                final(self).cursor(),
            ),
            advances(old(self).tokens(), old(self).cursor(), outcome(r, final(self).cursor())),
        decreases left(old(self).tokens(), old(self).cursor()), 4nat,
    {
        let ghost t = self.tokens();
        let ghost start = self.cursor();
        let ghost mut floor = start;
        let mut node = self.unary()?;
        loop
            invariant
                self.tokens() == t,
                t == old(self).tokens(),
                start == old(self).cursor(),
                start <= floor < self.cursor() <= t.len(),
                chain_rest(Layer::Term, t, floor, Ok((node, self.cursor()))) == chain(
                    Layer::Term,
                    t,
                    start,
                ),
            decreases left(t, self.cursor()),
        {
            let ghost here = self.cursor();
            let ghost lhs = node;
            if self.consume(TokenKind::Mul) {
                proof {
                    lemma_chain_step(Layer::Term, t, floor, lhs, here);
                }
                let rhs = self.unary()?;
                node = Node::new_binop(TokenKind::Mul, node, rhs);
                proof {
                    floor = here;
                }
            } else if self.consume(TokenKind::Div) {
                proof {
                    lemma_chain_step(Layer::Term, t, floor, lhs, here);
                }
                let rhs = self.unary()?;
                node = Node::new_binop(TokenKind::Div, node, rhs);
                proof {
                    floor = here;
                }
            } else {
                return Ok(node);
            }
        }
    }

    /// `unary := '+' operand | '-' operand | operand`
    pub fn unary(&mut self) -> (r: Result<Node, ParseError>)
        ensures
            final(self).tokens() == old(self).tokens(),
            unary(old(self).tokens(), old(self).cursor()) == outcome(r, final(self).cursor()),
            advances(old(self).tokens(), old(self).cursor(), outcome(r, final(self).cursor())),
        decreases left(old(self).tokens(), old(self).cursor()), 1nat,
    {
        if self.consume(TokenKind::Plus) {
            return self.primary();
        }
        if self.consume(TokenKind::Minus) {
            let node = self.primary()?;
            return Ok(Node::new_binop(TokenKind::Minus, Node::new_num(0), node));
        }
        self.primary()
    }

    /// `operand := number | name | '(' expression ')'`
    pub fn primary(&mut self) -> (r: Result<Node, ParseError>)
        ensures
            final(self).tokens() == old(self).tokens(),
            operand(old(self).tokens(), old(self).cursor()) == outcome(r, final(self).cursor()),
            advances(old(self).tokens(), old(self).cursor(), outcome(r, final(self).cursor())),
        decreases left(old(self).tokens(), old(self).cursor()), 0nat,
    {
        if self.consume(TokenKind::LeftParen) {
            let node = self.expr()?;
            self.expect(TokenKind::RightParen)?;
            return Ok(node);
        }
        match self.peek() {
            Some(token) => {
                let leaf = match &token.kind {
                    TokenKind::Ident(name) => Self::variable(name),
                    TokenKind::Num(v) => Some(Node::new_num(*v)),
                    _ => None,
                };
                match leaf {
                    Some(node) => {
                        self.pos += 1;
                        Ok(node)
                    },
                    None => Err(token.bad_token(None, self.pos)),
                }
            },
            None => Err(self.unexpected(None)),
        }
    }

    /// The variable that the word `name` stands for, if it names one.
    fn variable(name: &String) -> (r: Option<Node>)
        ensures
            match r {
                Some(node) => slot_of(name@) is Some && node == var_node(name@[0]),
                None => slot_of(name@) is None,
            },
    {
        let word = name.as_str();
        if word.unicode_len() != 1 {
            return None;
        }
        let c = word.get_char(0);
        match resolve_variable(c) {
            Some(_) => Some(Node::new_ident(c)),
            None => None,
        }
    }
}

/// `nodes` put before the statements of `rest`.
spec fn before(nodes: Seq<Node>, rest: Result<Seq<Node>, ParseFault>) -> Result<
    Seq<Node>,
    ParseFault,
> {
    match rest {
        Ok(tail) => Ok(nodes + tail),
        Err(e) => Err(e),
    }
}

/// Parses a whole program: statements up to the end-of-input marker.
pub fn parse(tokens: Vec<Token>) -> (r: Result<Vec<Node>, ParseError>)
    ensures
        statements(kinds(tokens@), 0) == parsed(r),
{
    let mut nodes: Vec<Node> = Vec::new();
    let mut parser = Parser::new(tokens);
    let ghost t = parser.tokens();
    assert(before(nodes@, statements(t, 0)) == statements(t, 0)) by {
        if let Ok(tail) = statements(t, 0) {
            assert(nodes@ + tail =~= tail);
        }
    }
    loop
        invariant
            parser.tokens() == t,
            t == kinds(tokens@),
            statements(t, 0) == before(nodes@, statements(t, parser.cursor())),
        decreases left(t, parser.cursor()),
    {
        let at_end = match parser.peek() {
            Some(token) => token.kind == TokenKind::EOF,
            None => true,
        };
        if at_end {
            assert(nodes@ + Seq::<Node>::empty() =~= nodes@);
            return Ok(nodes);
        }
        let ghost done = nodes@;
        let node = parser.stmt()?;
        nodes.push(node);
        proof {
            if let Ok(tail) = statements(t, parser.cursor()) {
                assert(done + (seq![node] + tail) =~= done.push(node) + tail);
            }
        }
    }
}

} // verus!
