use rust9cc::error::ParseError;
use rust9cc::parse::{parse, resolve_variable, Node, NodeKind, Parser};
use rust9cc::token::{Token, TokenKind, Tokenizer};

fn tokens(src: &str) -> Vec<Token> {
    Tokenizer::new(&src.to_string()).generate().unwrap()
}

fn trees(src: &str) -> Result<Vec<Node>, ParseError> {
    parse(tokens(src))
}

fn num(v: i32) -> Node {
    Node { kind: NodeKind::Num(v) }
}

fn binop(op: TokenKind, lhs: Node, rhs: Node) -> Node {
    Node { kind: NodeKind::BinOp(op, Box::new(lhs), Box::new(rhs)) }
}

fn var(c: char, offset: usize) -> Node {
    Node { kind: NodeKind::Lvar(c, offset) }
}

fn assign(lhs: Node, rhs: Node) -> Node {
    Node { kind: NodeKind::Assign(Box::new(lhs), Box::new(rhs)) }
}

fn ident(name: &str) -> TokenKind {
    TokenKind::Ident(name.to_string())
}

#[test]
fn constructors_build_the_four_shapes() {
    assert_eq!(Node::new(NodeKind::Num(1)), num(1));
    assert_eq!(Node::new_num(7), num(7));
    assert_eq!(Node::new_binop(TokenKind::Plus, num(1), num(2)), binop(TokenKind::Plus, num(1), num(2)));
    assert_eq!(Node::new_ident('a'), var('a', 8));
    assert_eq!(Node::new_ident('z'), var('z', 208));
    assert_eq!(Node::new_assign(var('a', 8), num(1)), assign(var('a', 8), num(1)));
}

#[test]
fn every_letter_has_its_own_slot() {
    let mut seen = Vec::new();
    for (i, c) in ('a'..='z').enumerate() {
        let offset = resolve_variable(c).unwrap();
        assert_eq!(offset, (i + 1) * 8);
        assert!(!seen.contains(&offset));
        seen.push(offset);
    }
    assert_eq!(seen.len(), 26);
    assert_eq!(resolve_variable('A'), None);
    assert_eq!(resolve_variable('0'), None);
    assert_eq!(resolve_variable('{'), None);
    assert_eq!(resolve_variable('`'), None);
}

#[test]
fn a_variable_keeps_its_slot_through_a_program() {
    assert_eq!(
        trees("c=1; c; c+c;"),
        Ok(vec![
            assign(var('c', 24), num(1)),
            var('c', 24),
            binop(TokenKind::Plus, var('c', 24), var('c', 24)),
        ])
    );
}

#[test]
fn multiplication_binds_tighter_than_addition() {
    assert_eq!(
        trees("2+3*4;"),
        Ok(vec![binop(TokenKind::Plus, num(2), binop(TokenKind::Mul, num(3), num(4)))])
    );
    assert_eq!(
        trees("2*3+4;"),
        Ok(vec![binop(TokenKind::Plus, binop(TokenKind::Mul, num(2), num(3)), num(4))])
    );
}

#[test]
fn operators_of_one_layer_group_to_the_left() {
    assert_eq!(
        trees("1-2-3;"),
        Ok(vec![binop(TokenKind::Minus, binop(TokenKind::Minus, num(1), num(2)), num(3))])
    );
    assert_eq!(
        trees("8/4/2;"),
        Ok(vec![binop(TokenKind::Div, binop(TokenKind::Div, num(8), num(4)), num(2))])
    );
    assert_eq!(
        trees("1==2!=3;"),
        Ok(vec![binop(TokenKind::NEQ, binop(TokenKind::EQ, num(1), num(2)), num(3))])
    );
}

#[test]
fn layers_from_loose_to_tight() {
    assert_eq!(
        trees("a=1==2<3+4*5;"),
        Ok(vec![assign(
            var('a', 8),
            binop(
                TokenKind::EQ,
                num(1),
                binop(
                    TokenKind::LeftAngleBracket,
                    num(2),
                    binop(TokenKind::Plus, num(3), binop(TokenKind::Mul, num(4), num(5)))
                )
            )
        )])
    );
}

#[test]
fn parentheses_group() {
    assert_eq!(
        trees("(1+2)*3;"),
        Ok(vec![binop(TokenKind::Mul, binop(TokenKind::Plus, num(1), num(2)), num(3))])
    );
    assert_eq!(trees("((1));"), Ok(vec![num(1)]));
}

#[test]
fn unary_signs() {
    assert_eq!(trees("+5;"), Ok(vec![num(5)]));
    assert_eq!(trees("-5;"), Ok(vec![binop(TokenKind::Minus, num(0), num(5))]));
    assert_eq!(
        trees("-a*2;"),
        Ok(vec![binop(TokenKind::Mul, binop(TokenKind::Minus, num(0), var('a', 8)), num(2))])
    );
    assert_eq!(
        trees("1--2;"),
        Ok(vec![binop(TokenKind::Minus, num(1), binop(TokenKind::Minus, num(0), num(2)))])
    );
}

#[test]
fn a_sign_takes_one_operand_only() {
    assert_eq!(
        trees("--1;"),
        Err(ParseError::OperandExpected { found: TokenKind::Minus, pos: 1 })
    );
}

#[test]
fn greater_than_is_swapped_less_than() {
    assert_eq!(trees("3>2;"), trees("2<3;"));
    assert_eq!(trees("3>=2;"), trees("2<=3;"));
    assert_eq!(trees("3>2;"), Ok(vec![binop(TokenKind::LeftAngleBracket, num(2), num(3))]));
    assert_eq!(trees("3>=2;"), Ok(vec![binop(TokenKind::LE, num(2), num(3))]));
    assert_eq!(trees("3<2;"), Ok(vec![binop(TokenKind::LeftAngleBracket, num(3), num(2))]));
    assert_eq!(trees("3<=2;"), Ok(vec![binop(TokenKind::LE, num(3), num(2))]));
    assert_eq!(
        trees("1>2>3;"),
        Ok(vec![binop(
            TokenKind::LeftAngleBracket,
            num(3),
            binop(TokenKind::LeftAngleBracket, num(2), num(1))
        )])
    );
}

#[test]
fn assignment_groups_to_the_right() {
    assert_eq!(
        trees("a=b=5;"),
        Ok(vec![assign(var('a', 8), assign(var('b', 16), num(5)))])
    );
}

#[test]
fn an_assignment_may_have_any_left_side() {
    assert_eq!(trees("1=2;"), Ok(vec![assign(num(1), num(2))]));
    assert_eq!(
        trees("a+1=2;"),
        Ok(vec![assign(binop(TokenKind::Plus, var('a', 8), num(1)), num(2))])
    );
}

#[test]
fn statements_in_order() {
    assert_eq!(trees(""), Ok(vec![]));
    assert_eq!(trees("1;2;3;"), Ok(vec![num(1), num(2), num(3)]));
}

#[test]
fn a_missing_operand_is_reported() {
    assert_eq!(trees("1+"), Err(ParseError::OperandExpected { found: TokenKind::EOF, pos: 2 }));
    assert_eq!(trees("1+;"), Err(ParseError::OperandExpected { found: TokenKind::SemiColon, pos: 2 }));
    assert_eq!(trees(";"), Err(ParseError::OperandExpected { found: TokenKind::SemiColon, pos: 0 }));
    assert_eq!(trees("()"), Err(ParseError::OperandExpected { found: TokenKind::RightParen, pos: 1 }));
    assert_eq!(trees("a=;"), Err(ParseError::OperandExpected { found: TokenKind::SemiColon, pos: 2 }));
}

#[test]
fn a_missing_semicolon_is_reported() {
    assert_eq!(
        trees("1"),
        Err(ParseError::Expected { kind: TokenKind::SemiColon, found: TokenKind::EOF, pos: 1 })
    );
    assert_eq!(
        trees("1;2"),
        Err(ParseError::Expected { kind: TokenKind::SemiColon, found: TokenKind::EOF, pos: 3 })
    );
    assert_eq!(
        trees("1 2;"),
        Err(ParseError::Expected { kind: TokenKind::SemiColon, found: TokenKind::Num(2), pos: 1 })
    );
}

#[test]
fn a_literal_has_one_digit() {
    assert_eq!(
        trees("a=10; a-3;"),
        Err(ParseError::Expected { kind: TokenKind::SemiColon, found: TokenKind::Num(0), pos: 3 })
    );
}

#[test]
fn a_missing_parenthesis_is_reported() {
    assert_eq!(
        trees("(1;"),
        Err(ParseError::Expected { kind: TokenKind::RightParen, found: TokenKind::SemiColon, pos: 2 })
    );
    assert_eq!(
        trees("(1"),
        Err(ParseError::Expected { kind: TokenKind::RightParen, found: TokenKind::EOF, pos: 2 })
    );
    assert_eq!(
        trees("1);"),
        Err(ParseError::Expected { kind: TokenKind::SemiColon, found: TokenKind::RightParen, pos: 1 })
    );
}

#[test]
fn only_lower_case_letters_name_variables() {
    assert_eq!(trees("ab;"), Err(ParseError::OperandExpected { found: ident("ab"), pos: 0 }));
    assert_eq!(trees("A;"), Err(ParseError::OperandExpected { found: ident("A"), pos: 0 }));
    assert_eq!(trees("1+a1;"), Err(ParseError::OperandExpected { found: ident("a1"), pos: 2 }));
    assert_eq!(trees("z;"), Ok(vec![var('z', 208)]));
}

#[test]
fn the_keyword_begins_no_statement() {
    assert_eq!(trees("return 1;"), Err(ParseError::OperandExpected { found: TokenKind::Return, pos: 0 }));
}

#[test]
fn tokens_without_the_marker_end_where_they_end() {
    assert_eq!(parse(vec![]), Ok(vec![]));
    assert_eq!(
        parse(vec![Token::new(TokenKind::Num(1)), Token::new(TokenKind::SemiColon)]),
        Ok(vec![num(1)])
    );
    assert_eq!(
        parse(vec![Token::new(TokenKind::Num(1))]),
        Err(ParseError::Expected { kind: TokenKind::SemiColon, found: TokenKind::EOF, pos: 1 })
    );
}

#[test]
fn parsing_stops_at_the_first_marker() {
    assert_eq!(
        parse(vec![
            Token::new(TokenKind::Num(1)),
            Token::new(TokenKind::SemiColon),
            Token::new(TokenKind::EOF),
            Token::new(TokenKind::Plus),
        ]),
        Ok(vec![num(1)])
    );
}

#[test]
fn consume_steps_only_over_a_match() {
    let mut parser = Parser::new(tokens("+1"));
    assert!(!parser.consume(TokenKind::Minus));
    assert!(parser.consume(TokenKind::Plus));
    assert!(!parser.consume(TokenKind::Plus));
    assert!(parser.consume(TokenKind::Num(1)));
    assert!(!parser.consume(TokenKind::Num(1)));
    assert!(!parser.consume(TokenKind::SemiColon));
}

#[test]
fn expect_reports_a_mismatch_and_stays() {
    let mut parser = Parser::new(tokens("+;"));
    assert_eq!(
        parser.expect(TokenKind::SemiColon),
        Err(ParseError::Expected { kind: TokenKind::SemiColon, found: TokenKind::Plus, pos: 0 })
    );
    assert_eq!(parser.expect(TokenKind::Plus), Ok(()));
    assert_eq!(parser.expect(TokenKind::SemiColon), Ok(()));
    assert_eq!(
        parser.expect(TokenKind::SemiColon),
        Err(ParseError::Expected { kind: TokenKind::SemiColon, found: TokenKind::EOF, pos: 2 })
    );
}

#[test]
fn each_layer_takes_what_belongs_to_it() {
    let mut parser = Parser::new(tokens("1*2+3<4==5=6;"));
    assert_eq!(parser.primary(), Ok(num(1)));
    let mut parser = Parser::new(tokens("1*2+3<4==5=6;"));
    assert_eq!(parser.unary(), Ok(num(1)));
    let mut parser = Parser::new(tokens("1*2+3<4==5=6;"));
    assert_eq!(parser.mul(), Ok(binop(TokenKind::Mul, num(1), num(2))));
    assert!(parser.consume(TokenKind::Plus));
    let mut parser = Parser::new(tokens("1*2+3<4==5=6;"));
    let sum = binop(TokenKind::Plus, binop(TokenKind::Mul, num(1), num(2)), num(3));
    assert_eq!(parser.add(), Ok(sum));
    let mut parser = Parser::new(tokens("1+3<4==5=6;"));
    let less = binop(TokenKind::LeftAngleBracket, binop(TokenKind::Plus, num(1), num(3)), num(4));
    assert_eq!(parser.relational(), Ok(less));
    let mut parser = Parser::new(tokens("3<4==5=6;"));
    let same = binop(TokenKind::EQ, binop(TokenKind::LeftAngleBracket, num(3), num(4)), num(5));
    assert_eq!(parser.equality(), Ok(same));
    assert!(parser.consume(TokenKind::Assign));
    let mut parser = Parser::new(tokens("a=6;b;"));
    assert_eq!(parser.assign(), Ok(assign(var('a', 8), num(6))));
    let mut parser = Parser::new(tokens("a=6;b;"));
    assert_eq!(parser.expr(), Ok(assign(var('a', 8), num(6))));
    assert!(parser.consume(TokenKind::SemiColon));
    let mut parser = Parser::new(tokens("a=6;b;"));
    assert_eq!(parser.stmt(), Ok(assign(var('a', 8), num(6))));
    assert_eq!(parser.stmt(), Ok(var('b', 16)));
}

#[test]
fn a_token_reports_itself() {
    let token = Token::new(TokenKind::Plus);
    assert_eq!(
        token.bad_token(Some(TokenKind::SemiColon), 4),
        ParseError::Expected { kind: TokenKind::SemiColon, found: TokenKind::Plus, pos: 4 }
    );
    assert_eq!(
        token.bad_token(None, 0),
        ParseError::OperandExpected { found: TokenKind::Plus, pos: 0 }
    );
}

#[test]
fn a_tree_in_parentheses_reads_back() {
    assert_eq!(
        trees("((1+2)*(a=(3<(b/4))));"),
        Ok(vec![binop(
            TokenKind::Mul,
            binop(TokenKind::Plus, num(1), num(2)),
            assign(
                var('a', 8),
                binop(TokenKind::LeftAngleBracket, num(3), binop(TokenKind::Div, var('b', 16), num(4)))
            )
        )])
    );
    assert_eq!(
        trees("((1==2)<=((3!=4)-5));"),
        Ok(vec![binop(
            TokenKind::LE,
            binop(TokenKind::EQ, num(1), num(2)),
            binop(TokenKind::Minus, binop(TokenKind::NEQ, num(3), num(4)), num(5))
        )])
    );
}
