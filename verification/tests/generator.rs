use rust9cc::codegen::{check, check_all, codegen, gen, gen_lval, FRAME_BYTES};
use rust9cc::compile;
use rust9cc::error::{CompileError, GenError, LexError, ParseError};
use rust9cc::parse::{Node, NodeKind};
use rust9cc::token::TokenKind;

const OPENING: &str = ".intel_syntax noprefix\n.globl main\nmain:\n  # prologue start\n  push rbp\n  mov rbp, rsp\n  sub rsp, 208\n  # prologue end\n";
const CLOSING: &str = "  # epilogue\n  mov rsp, rbp\n  pop rbp\n  ret\n";
const STATEMENT_END: &str = "  pop rax\n  # stmt-fin \n";

fn num(v: i32) -> Node {
    Node { kind: NodeKind::Num(v) }
}

fn binop(op: TokenKind, lhs: Node, rhs: Node) -> Node {
    Node { kind: NodeKind::BinOp(op, Box::new(lhs), Box::new(rhs)) }
}

fn var(c: char, offset: usize) -> Node {
    Node { kind: NodeKind::Lvar(c, offset) }
}

fn assign(lhs: Node, rhs: Node) -> Node {
    Node { kind: NodeKind::Assign(Box::new(lhs), Box::new(rhs)) }
}

fn text_of(node: Node) -> String {
    let mut code = String::new();
    assert_eq!(gen(&mut code, node), Ok(()));
    code
}

fn address(offset: usize) -> String {
    format!("\n  mov rax, rbp\n\tsub rax, {}\n\tpush rax\n\t\n", offset)
}

fn operator_text(op: TokenKind) -> String {
    let code = text_of(binop(op, num(1), num(2)));
    let head = "  push 1\n  push 2\n  pop rdi\n  pop rax\n";
    let tail = "  push rax\n";
    assert!(code.starts_with(head));
    assert!(code.ends_with(tail));
    code[head.len()..code.len() - tail.len()].to_string()
}

#[test]
fn the_frame_has_a_slot_for_each_letter() {
    assert_eq!(FRAME_BYTES, 26 * 8);
    assert_eq!(FRAME_BYTES, 208);
}

#[test]
fn an_empty_program_is_prologue_and_epilogue() {
    assert_eq!(codegen(vec![]), Ok(format!("{}{}", OPENING, CLOSING)));
    assert_eq!(compile(&"".to_string()), Ok(format!("{}{}", OPENING, CLOSING)));
}

#[test]
fn a_literal_is_pushed() {
    assert_eq!(text_of(num(7)), "  push 7\n");
    assert_eq!(text_of(num(0)), "  push 0\n");
    assert_eq!(text_of(num(10)), "  push 10\n");
    assert_eq!(text_of(num(-1)), "  push -1\n");
    assert_eq!(text_of(num(2147483647)), "  push 2147483647\n");
    assert_eq!(text_of(num(-2147483648)), "  push -2147483648\n");
    assert_eq!(text_of(num(1000)), "  push 1000\n");
}

#[test]
fn a_statement_is_popped_again() {
    assert_eq!(
        compile(&"7;".to_string()),
        Ok(format!("{}  push 7\n{}{}", OPENING, STATEMENT_END, CLOSING))
    );
    assert_eq!(
        compile(&"1;2;".to_string()),
        Ok(format!("{}  push 1\n{}  push 2\n{}{}", OPENING, STATEMENT_END, STATEMENT_END, CLOSING))
    );
}

#[test]
fn each_operator_has_its_instructions() {
    assert_eq!(operator_text(TokenKind::Plus), "  add rax, rdi\n");
    assert_eq!(operator_text(TokenKind::Minus), "  sub rax, rdi\n");
    assert_eq!(operator_text(TokenKind::Mul), "  imul rax, rdi\n");
    assert_eq!(operator_text(TokenKind::Div), "  cqo\n  idiv rdi\n");
    assert_eq!(operator_text(TokenKind::EQ), "  cmp rax, rdi\n  sete al\n  movzb rax, al\n");
    assert_eq!(operator_text(TokenKind::NEQ), "  cmp rax, rdi\n  setne al\n  movzb rax, al\n");
    assert_eq!(
        operator_text(TokenKind::LeftAngleBracket),
        "  cmp rax, rdi\n  setl al\n  movzb rax, al\n"
    );
    assert_eq!(operator_text(TokenKind::LE), "  cmp rax, rdi\n  setle al\n  movzb rax, al\n");
}

#[test]
fn the_left_operand_comes_first() {
    assert_eq!(
        text_of(binop(TokenKind::Minus, num(5), binop(TokenKind::Mul, num(2), num(3)))),
        "  push 5\n  push 2\n  push 3\n  pop rdi\n  pop rax\n  imul rax, rdi\n  push rax\n  pop rdi\n  pop rax\n  sub rax, rdi\n  push rax\n"
    );
}

#[test]
fn the_address_of_a_slot() {
    let mut code = String::from("x");
    gen_lval(&mut code, 24);
    assert_eq!(code, format!("x{}", address(24)));
    let mut code = String::new();
    gen_lval(&mut code, 0);
    assert_eq!(code, address(0));
    let mut code = String::new();
    gen_lval(&mut code, usize::MAX);
    assert_eq!(code, address(usize::MAX));
}

#[test]
fn a_variable_is_loaded_from_its_slot() {
    assert_eq!(
        text_of(var('c', 24)),
        format!("{}  pop rax\n  mov rax, [rax]\n  push rax\n", address(24))
    );
}

#[test]
fn an_assignment_stores_and_keeps_the_value() {
    assert_eq!(
        text_of(assign(var('b', 16), num(5))),
        format!(
            "{}  push 5\n  pop rdi\n  pop rax\n  mov [rax], rdi\n  push rdi\n",
            address(16)
        )
    );
}

#[test]
fn the_generator_appends() {
    let mut code = String::from("before\n");
    assert_eq!(gen(&mut code, num(1)), Ok(()));
    assert_eq!(gen(&mut code, num(2)), Ok(()));
    assert_eq!(code, "before\n  push 1\n  push 2\n");
}

#[test]
fn an_assignment_to_a_value_is_refused() {
    let mut code = String::from("kept");
    assert_eq!(gen(&mut code, assign(num(1), num(2))), Err(GenError::NotAssignable));
    assert_eq!(code, "kept");
    assert_eq!(
        gen(&mut code, binop(TokenKind::Plus, num(1), assign(num(1), num(2)))),
        Err(GenError::NotAssignable)
    );
    assert_eq!(code, "kept");
    assert_eq!(codegen(vec![num(1), assign(num(1), num(2))]), Err(GenError::NotAssignable));
    assert_eq!(
        compile(&"1=2;".to_string()),
        Err(CompileError::Generation(GenError::NotAssignable))
    );
    assert_eq!(
        compile(&"3; a+1=2;".to_string()),
        Err(CompileError::Generation(GenError::NotAssignable))
    );
}

#[test]
fn a_token_that_is_no_operator_is_refused() {
    let mut code = String::from("kept");
    for op in [
        TokenKind::SemiColon,
        TokenKind::Assign,
        TokenKind::RightAngleBracket,
        TokenKind::RE,
        TokenKind::LeftParen,
        TokenKind::RightParen,
        TokenKind::Return,
        TokenKind::EOF,
        TokenKind::Num(1),
        TokenKind::Ident("a".to_string()),
    ] {
        assert_eq!(gen(&mut code, binop(op, num(1), num(2))), Err(GenError::BadOperator));
        assert_eq!(code, "kept");
    }
}

#[test]
fn the_first_fault_on_the_way_is_reported() {
    let bad_operator = binop(TokenKind::SemiColon, num(1), num(2));
    let bad_target = assign(num(1), num(2));
    assert_eq!(
        check(&binop(TokenKind::Plus, bad_target, bad_operator)),
        Err(GenError::NotAssignable)
    );
    let bad_operator = binop(TokenKind::SemiColon, num(1), num(2));
    let bad_target = assign(num(1), num(2));
    assert_eq!(
        check(&binop(TokenKind::Plus, bad_operator, bad_target)),
        Err(GenError::BadOperator)
    );
    let inner = assign(num(1), num(2));
    assert_eq!(check(&binop(TokenKind::SemiColon, inner, num(3))), Err(GenError::NotAssignable));
    let bad_operator = binop(TokenKind::SemiColon, num(1), num(2));
    assert_eq!(check(&assign(num(1), bad_operator)), Err(GenError::NotAssignable));
    let bad_operator = binop(TokenKind::SemiColon, num(1), num(2));
    assert_eq!(check(&assign(var('a', 8), bad_operator)), Err(GenError::BadOperator));
    assert_eq!(check(&assign(var('a', 8), num(1))), Ok(()));
}

#[test]
fn the_first_faulty_statement_is_reported() {
    let nodes = vec![
        num(1),
        binop(TokenKind::SemiColon, num(1), num(2)),
        assign(num(1), num(2)),
    ];
    assert_eq!(check_all(&nodes), Err(GenError::BadOperator));
    assert_eq!(codegen(nodes), Err(GenError::BadOperator));
    assert_eq!(check_all(&vec![num(1), var('a', 8)]), Ok(()));
    assert_eq!(check_all(&vec![]), Ok(()));
}

#[test]
fn malformed_sources_give_no_text() {
    assert_eq!(
        compile(&"1+".to_string()),
        Err(CompileError::Syntax(ParseError::OperandExpected { found: TokenKind::EOF, pos: 2 }))
    );
    assert_eq!(
        compile(&"@".to_string()),
        Err(CompileError::Lexical(LexError { ch: '@', pos: 0 }))
    );
    assert_eq!(
        compile(&"1+; @".to_string()),
        Err(CompileError::Lexical(LexError { ch: '@', pos: 4 }))
    );
}

#[test]
fn a_whole_routine() {
    let expected = format!(
        "{}{}  push 1\n  pop rdi\n  pop rax\n  mov [rax], rdi\n  push rdi\n{}{}  pop rax\n  mov rax, [rax]\n  push rax\n  push 2\n  pop rdi\n  pop rax\n  cmp rax, rdi\n  setl al\n  movzb rax, al\n  push rax\n{}{}",
        OPENING,
        address(8),
        STATEMENT_END,
        address(8),
        STATEMENT_END,
        CLOSING
    );
    assert_eq!(compile(&"a=1; a<2;".to_string()), Ok(expected));
}

#[test]
fn greater_than_compiles_as_swapped_less_than() {
    assert_eq!(compile(&"3>2;".to_string()), compile(&"2<3;".to_string()));
    assert_eq!(compile(&"3>=2;".to_string()), compile(&"2<=3;".to_string()));
    assert_ne!(compile(&"3>2;".to_string()), compile(&"3<2;".to_string()));
}

fn count(text: &str, line: &str) -> usize {
    text.lines().filter(|l| l.trim() == line).count()
}

#[test]
fn pushes_and_pops_balance_in_a_statement() {
    for src in ["1;", "a=b=5;", "1+2*3-4;", "(1+2)*3;", "a=1; b=a<2; -b/(a+1)==0;", "z>=y;"] {
        let text = compile(&src.to_string()).unwrap();
        let body = &text[OPENING.len()..text.len() - CLOSING.len()];
        let pushes = body.lines().filter(|l| l.trim().starts_with("push ")).count();
        let pops = body.lines().filter(|l| l.trim().starts_with("pop ")).count();
        assert_eq!(pushes, pops);
        assert_eq!(count(&text, "push rbp"), 1);
        assert_eq!(count(&text, "pop rbp"), 1);
    }
}
