use rust9cc::codegen::check_all;
use rust9cc::error::{CompileError, GenError, LexError, ParseError};
use rust9cc::interpret;
use rust9cc::parse::{parse, Node};
use rust9cc::semantics::{compute, evaluate, evaluate_all, Outcome, Variables};
use rust9cc::token::{TokenKind, Tokenizer};

fn value(src: &str) -> i64 {
    match interpret(&src.to_string()) {
        Ok(Outcome::Value(v)) => v,
        other => panic!("{:?}", other),
    }
}

fn trees(src: &str) -> Vec<Node> {
    let nodes = parse(Tokenizer::new(&src.to_string()).generate().unwrap()).unwrap();
    assert_eq!(check_all(&nodes), Ok(()));
    nodes
}

#[test]
fn arithmetic_respects_precedence() {
    assert_eq!(value("2+3*4;"), 14);
    assert_eq!(value("2*3+4;"), 10);
    assert_eq!(value("(2+3)*4;"), 20);
    assert_eq!(value("1+2*3-4;"), 3);
    assert_eq!(value("(1+2)*3;"), 9);
    assert_eq!(value("9-8-1;"), 0);
    assert_eq!(value("9-(8-1);"), 2);
    assert_eq!(value("0;"), 0);
    assert_eq!(value("9*9*9;"), 729);
}

#[test]
fn unary_minus_is_zero_minus() {
    assert_eq!(value("-5;"), -5);
    assert_eq!(value("+5;"), 5);
    assert_eq!(value("-(2+3)*2;"), -10);
    assert_eq!(value("3--3;"), 6);
}

#[test]
fn division_truncates_toward_zero() {
    assert_eq!(value("7/2;"), 3);
    assert_eq!(value("-7/2;"), -3);
    assert_eq!(value("7/-2;"), -3);
    assert_eq!(value("-7/-2;"), 3);
    assert_eq!(value("6/3;"), 2);
    assert_eq!(value("1/2;"), 0);
    assert_eq!(value("-1/2;"), 0);
    assert_eq!(value("0/5;"), 0);
    assert_eq!(value("8/4/2;"), 1);
}

#[test]
fn division_by_zero_stops_the_run() {
    assert_eq!(interpret(&"1/0;".to_string()), Ok(Outcome::DivideError));
    assert_eq!(interpret(&"a=5; a/(1-1); a=6;".to_string()), Ok(Outcome::DivideError));
    assert_eq!(interpret(&"0/0;".to_string()), Ok(Outcome::DivideError));
}

#[test]
fn comparisons_yield_one_or_zero() {
    assert_eq!(value("1<2;"), 1);
    assert_eq!(value("2<1;"), 0);
    assert_eq!(value("1<1;"), 0);
    assert_eq!(value("1<=2;"), 1);
    assert_eq!(value("1<=1;"), 1);
    assert_eq!(value("2<=1;"), 0);
    assert_eq!(value("3==3;"), 1);
    assert_eq!(value("3==4;"), 0);
    assert_eq!(value("3!=3;"), 0);
    assert_eq!(value("3!=4;"), 1);
    assert_eq!(value("-1<0;"), 1);
    assert_eq!(value("(1<2)+(3==3);"), 2);
}

#[test]
fn greater_than_has_the_value_of_swapped_less_than() {
    assert_eq!(value("3>2;"), 1);
    assert_eq!(value("2>3;"), 0);
    assert_eq!(value("2>2;"), 0);
    assert_eq!(value("3>=2;"), 1);
    assert_eq!(value("2>=2;"), 1);
    assert_eq!(value("2>=3;"), 0);
    assert_eq!(value("3>2;"), value("2<3;"));
    assert_eq!(value("3>=2;"), value("2<=3;"));
}

#[test]
fn the_operands_of_greater_than_run_right_to_left() {
    assert_eq!(value("(a=1)>(a=2); a;"), 1);
    assert_eq!(value("(a=1)<(a=2); a;"), 2);
}

#[test]
fn an_assignment_has_the_value_it_assigns() {
    assert_eq!(value("a=5;"), 5);
    assert_eq!(value("a=b=5;"), 5);
    assert_eq!(value("a=b=5; a;"), 5);
    assert_eq!(value("a=b=5; b;"), 5);
    assert_eq!(value("a=b=5; a+b;"), 10);
    assert_eq!(value("(a=2)*3;"), 6);
    assert_eq!(value("a=1+(b=2);"), 3);
}

#[test]
fn a_read_yields_the_latest_value() {
    assert_eq!(value("a=1; a=2; a;"), 2);
    assert_eq!(value("a=1; b=2; a;"), 1);
    assert_eq!(value("a=1; b=2; b;"), 2);
    assert_eq!(value("a=3; a=a*a; a;"), 9);
    assert_eq!(value("a=9; a-2;"), 7);
    assert_eq!(value("z=1; y=2; a=3; z+y*a;"), 7);
}

#[test]
fn the_variables_are_apart() {
    let src = "a=1;b=2;c=3;d=4;e=5;f=6;g=7;h=8;i=9;j=1;k=2;l=3;m=4;n=5;o=6;p=7;q=8;r=9;s=1;t=2;u=3;v=4;w=5;x=6;y=7;z=8;";
    let nodes = trees(src);
    let mut vars = Variables::new();
    assert_eq!(evaluate_all(&nodes, &mut vars), Outcome::Value(8));
    for (i, c) in ('a'..='z').enumerate() {
        assert_eq!(vars.get(c), (i % 9) as i64 + 1);
    }
}

#[test]
fn a_variable_holds_zero_at_first() {
    assert_eq!(value("a;"), 0);
    assert_eq!(value("z+1;"), 1);
}

#[test]
fn a_program_without_statements_has_no_value() {
    assert_eq!(interpret(&"".to_string()), Ok(Outcome::Nothing));
    assert_eq!(interpret(&"  \n".to_string()), Ok(Outcome::Nothing));
}

#[test]
fn malformed_sources_are_not_run() {
    assert_eq!(
        interpret(&"1+".to_string()),
        Err(CompileError::Syntax(ParseError::OperandExpected { found: TokenKind::EOF, pos: 2 }))
    );
    assert_eq!(
        interpret(&"@".to_string()),
        Err(CompileError::Lexical(LexError { ch: '@', pos: 0 }))
    );
    assert_eq!(
        interpret(&"1=2;".to_string()),
        Err(CompileError::Generation(GenError::NotAssignable))
    );
    assert_eq!(
        interpret(&"a=10; a-3;".to_string()),
        Err(CompileError::Syntax(ParseError::Expected {
            kind: TokenKind::SemiColon,
            found: TokenKind::Num(0),
            pos: 3
        }))
    );
}

#[test]
fn sums_and_products_wrap() {
    assert_eq!(value("9*9*9*9*9*9*9*9*9*9*9*9*9*9*9*9*9*9*9;"), 1350851717672992089);
    assert_eq!(value("9*9*9*9*9*9*9*9*9*9*9*9*9*9*9*9*9*9*9*9;"), -6289078614652622815);
    assert_eq!(compute(&TokenKind::Plus, i64::MAX, 1), Some(i64::MIN));
    assert_eq!(compute(&TokenKind::Minus, i64::MIN, 1), Some(i64::MAX));
    assert_eq!(compute(&TokenKind::Mul, i64::MIN, -1), Some(i64::MIN));
    assert_eq!(compute(&TokenKind::Mul, i64::MAX, 2), Some(-2));
    assert_eq!(compute(&TokenKind::Plus, 2, 3), Some(5));
    assert_eq!(compute(&TokenKind::Minus, 2, 3), Some(-1));
}

#[test]
fn the_least_integer_is_not_divided_by_minus_one() {
    assert_eq!(compute(&TokenKind::Div, i64::MIN, -1), None);
    assert_eq!(compute(&TokenKind::Div, i64::MIN, 1), Some(i64::MIN));
    assert_eq!(compute(&TokenKind::Div, i64::MIN, 2), Some(i64::MIN / 2));
    assert_eq!(compute(&TokenKind::Div, i64::MAX, -1), Some(-i64::MAX));
    assert_eq!(compute(&TokenKind::Div, i64::MIN, i64::MIN), Some(1));
    assert_eq!(compute(&TokenKind::Div, i64::MAX, i64::MIN), Some(0));
    assert_eq!(compute(&TokenKind::Div, 5, 0), None);
    let twos = vec!["2"; 63].join("*");
    assert_eq!(value(&format!("{};", twos)), i64::MIN);
    assert_eq!(
        interpret(&format!("a={}; a/(0-1);", twos)),
        Ok(Outcome::DivideError)
    );
}

#[test]
fn comparisons_compute_bits() {
    assert_eq!(compute(&TokenKind::EQ, 4, 4), Some(1));
    assert_eq!(compute(&TokenKind::EQ, 4, 5), Some(0));
    assert_eq!(compute(&TokenKind::NEQ, 4, 4), Some(0));
    assert_eq!(compute(&TokenKind::NEQ, 4, 5), Some(1));
    assert_eq!(compute(&TokenKind::LeftAngleBracket, -4, 4), Some(1));
    assert_eq!(compute(&TokenKind::LeftAngleBracket, 4, 4), Some(0));
    assert_eq!(compute(&TokenKind::LE, 4, 4), Some(1));
    assert_eq!(compute(&TokenKind::LE, 5, 4), Some(0));
    assert_eq!(compute(&TokenKind::SemiColon, 1, 1), None);
    assert_eq!(compute(&TokenKind::RightAngleBracket, 1, 1), None);
}

#[test]
fn one_expression_at_a_time() {
    let nodes = trees("a=4; a*a; a/0;");
    let mut vars = Variables::new();
    assert_eq!(evaluate(&nodes[0], &mut vars), Some(4));
    assert_eq!(vars.get('a'), 4);
    assert_eq!(evaluate(&nodes[1], &mut vars), Some(16));
    assert_eq!(evaluate(&nodes[2], &mut vars), None);
    vars.set('b', -3);
    assert_eq!(vars.get('b'), -3);
    assert_eq!(vars.get('a'), 4);
}
