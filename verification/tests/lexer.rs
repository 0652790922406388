use rust9cc::error::LexError;
use rust9cc::token::{CharType, Token, TokenKind, Tokenizer};

fn scan(src: &str) -> Result<Vec<TokenKind>, LexError> {
    let mut tokenizer = Tokenizer::new(&src.to_string());
    tokenizer.generate().map(|tokens| tokens.into_iter().map(|t| t.kind).collect())
}

fn ident(name: &str) -> TokenKind {
    TokenKind::Ident(name.to_string())
}

#[test]
fn playground() {
    let chars: Vec<char> = "abc".chars().collect();
    println!("char:{:?}", chars);
    println!("slice:{:?}", &chars[0..2]);
    let string = &chars[0..2].iter().collect::<String>();
    assert_eq!(1, 1);
    assert_eq!(string, "ab");
}

#[test]
fn classifies_characters() {
    assert_eq!(CharType::new(' '), CharType::Whitespace);
    assert_eq!(CharType::new('\t'), CharType::Whitespace);
    assert_eq!(CharType::new('\n'), CharType::Whitespace);
    assert_eq!(CharType::new('\r'), CharType::Whitespace);
    assert_eq!(CharType::new('\x0C'), CharType::Whitespace);
    assert_eq!(CharType::new('0'), CharType::Num('0'));
    assert_eq!(CharType::new('9'), CharType::Num('9'));
    assert_eq!(CharType::new('a'), CharType::Alphabetic('a'));
    assert_eq!(CharType::new('Z'), CharType::Alphabetic('Z'));
    assert_eq!(CharType::new('+'), CharType::NonAlphabetic('+'));
    assert_eq!(CharType::new('_'), CharType::NonAlphabetic('_'));
    assert_eq!(CharType::new('\u{000B}'), CharType::NonAlphabetic('\u{000B}'));
    assert_eq!(CharType::new('é'), CharType::NonAlphabetic('é'));
}

#[test]
fn empty_source_is_end_of_input_alone() {
    assert_eq!(scan(""), Ok(vec![TokenKind::EOF]));
    assert_eq!(scan(" \t\r\n"), Ok(vec![TokenKind::EOF]));
}

#[test]
fn every_single_symbol() {
    assert_eq!(
        scan("+-*/()<> =;"),
        Ok(vec![
            TokenKind::Plus,
            TokenKind::Minus,
            TokenKind::Mul,
            TokenKind::Div,
            TokenKind::LeftParen,
            TokenKind::RightParen,
            TokenKind::LeftAngleBracket,
            TokenKind::RightAngleBracket,
            TokenKind::Assign,
            TokenKind::SemiColon,
            TokenKind::EOF,
        ])
    );
}

#[test]
fn single_letter_table() {
    assert_eq!(TokenKind::new_single_letter('+'), Some(TokenKind::Plus));
    assert_eq!(TokenKind::new_single_letter(';'), Some(TokenKind::SemiColon));
    assert_eq!(TokenKind::new_single_letter('!'), None);
    assert_eq!(TokenKind::new_single_letter('a'), None);
    assert_eq!(TokenKind::new_double_letter('=', '='), Some(TokenKind::EQ));
    assert_eq!(TokenKind::new_double_letter('!', '='), Some(TokenKind::NEQ));
    assert_eq!(TokenKind::new_double_letter('<', '='), Some(TokenKind::LE));
    assert_eq!(TokenKind::new_double_letter('>', '='), Some(TokenKind::RE));
    assert_eq!(TokenKind::new_double_letter('=', '<'), None);
    assert_eq!(TokenKind::new_double_letter('+', '='), None);
}

#[test]
fn longest_symbol_wins() {
    assert_eq!(
        scan("a<=b == 1"),
        Ok(vec![ident("a"), TokenKind::LE, ident("b"), TokenKind::EQ, TokenKind::Num(1), TokenKind::EOF])
    );
    assert_eq!(
        scan("===>=<!="),
        Ok(vec![
            TokenKind::EQ,
            TokenKind::Assign,
            TokenKind::RE,
            TokenKind::LeftAngleBracket,
            TokenKind::NEQ,
            TokenKind::EOF,
        ])
    );
    assert_eq!(scan("= ="), Ok(vec![TokenKind::Assign, TokenKind::Assign, TokenKind::EOF]));
}

#[test]
fn a_digit_is_a_literal_by_itself() {
    assert_eq!(scan("12"), Ok(vec![TokenKind::Num(1), TokenKind::Num(2), TokenKind::EOF]));
    assert_eq!(scan("0"), Ok(vec![TokenKind::Num(0), TokenKind::EOF]));
    assert_eq!(scan("9"), Ok(vec![TokenKind::Num(9), TokenKind::EOF]));
}

#[test]
fn words_are_scanned_to_their_end() {
    assert_eq!(scan("abc"), Ok(vec![ident("abc"), TokenKind::EOF]));
    assert_eq!(scan("a1b2 c"), Ok(vec![ident("a1b2"), ident("c"), TokenKind::EOF]));
    assert_eq!(scan("x"), Ok(vec![ident("x"), TokenKind::EOF]));
    assert_eq!(scan("1a"), Ok(vec![TokenKind::Num(1), ident("a"), TokenKind::EOF]));
}

#[test]
fn the_keyword_needs_an_exact_match() {
    assert_eq!(scan("return"), Ok(vec![TokenKind::Return, TokenKind::EOF]));
    assert_eq!(scan("return;"), Ok(vec![TokenKind::Return, TokenKind::SemiColon, TokenKind::EOF]));
    assert_eq!(scan("returnx"), Ok(vec![ident("returnx"), TokenKind::EOF]));
    assert_eq!(scan("retur"), Ok(vec![ident("retur"), TokenKind::EOF]));
    assert_eq!(scan("Return"), Ok(vec![ident("Return"), TokenKind::EOF]));
    assert_eq!(scan("return1"), Ok(vec![ident("return1"), TokenKind::EOF]));
}

#[test]
fn unknown_characters_are_reported_with_their_place() {
    assert_eq!(scan("@"), Err(LexError { ch: '@', pos: 0 }));
    assert_eq!(scan("1 + $"), Err(LexError { ch: '$', pos: 4 }));
    assert_eq!(scan("a!b"), Err(LexError { ch: '!', pos: 1 }));
    assert_eq!(scan("é"), Err(LexError { ch: 'é', pos: 0 }));
    assert_eq!(scan("a_b"), Err(LexError { ch: '_', pos: 1 }));
}

#[test]
fn places_count_characters_not_bytes() {
    assert_eq!(scan("1;é"), Err(LexError { ch: 'é', pos: 2 }));
}

#[test]
fn a_lone_bang_at_the_end_is_unknown() {
    assert_eq!(scan("1!"), Err(LexError { ch: '!', pos: 1 }));
}

#[test]
fn tokens_end_with_the_marker_and_hold_it_once() {
    let kinds = scan("a = 1 + 2; b;").unwrap();
    assert_eq!(kinds.last(), Some(&TokenKind::EOF));
    assert_eq!(kinds.iter().filter(|k| **k == TokenKind::EOF).count(), 1);
}

#[test]
fn scanning_twice_gives_the_marker_alone() {
    let mut tokenizer = Tokenizer::new(&"1+2;".to_string());
    assert_eq!(tokenizer.generate().unwrap().len(), 5);
    let again: Vec<TokenKind> = tokenizer.generate().unwrap().into_iter().map(|t| t.kind).collect();
    assert_eq!(again, vec![TokenKind::EOF]);
}

#[test]
fn classes_by_position() {
    let tokenizer = Tokenizer::new(&"a 1+".to_string());
    assert_eq!(tokenizer.get_by_pos(0), Some(CharType::Alphabetic('a')));
    assert_eq!(tokenizer.get_by_pos(1), Some(CharType::Whitespace));
    assert_eq!(tokenizer.get_by_pos(2), Some(CharType::Num('1')));
    assert_eq!(tokenizer.get_by_pos(3), Some(CharType::NonAlphabetic('+')));
    assert_eq!(tokenizer.get_by_pos(4), None);
}

#[test]
fn token_kinds_compare_by_tag_and_payload() {
    assert_eq!(Token::new(TokenKind::Num(3)).kind, TokenKind::Num(3));
    assert_ne!(TokenKind::Num(3), TokenKind::Num(4));
    assert_ne!(ident("a"), ident("b"));
    assert_eq!(ident("a"), ident("a"));
    assert_ne!(TokenKind::LE, TokenKind::RE);
    assert_eq!(ident("abc").clone(), ident("abc"));
    assert_eq!(Token::new_eof().kind, TokenKind::EOF);
}

fn spelling(kind: &TokenKind) -> String {
    match kind {
        TokenKind::Num(v) => v.to_string(),
        TokenKind::Ident(word) => word.clone(),
        TokenKind::Plus => "+".to_string(),
        TokenKind::Minus => "-".to_string(),
        TokenKind::Mul => "*".to_string(),
        TokenKind::Div => "/".to_string(),
        TokenKind::LeftParen => "(".to_string(),
        TokenKind::RightParen => ")".to_string(),
        TokenKind::LeftAngleBracket => "<".to_string(),
        TokenKind::RightAngleBracket => ">".to_string(),
        TokenKind::Assign => "=".to_string(),
        TokenKind::SemiColon => ";".to_string(),
        TokenKind::EQ => "==".to_string(),
        TokenKind::NEQ => "!=".to_string(),
        TokenKind::LE => "<=".to_string(),
        TokenKind::RE => ">=".to_string(),
        TokenKind::Return => "return".to_string(),
        TokenKind::EOF => String::new(),
    }
}

#[test]
fn the_tokens_spell_the_source_without_its_white_space() {
    for src in ["a = b1 <= 3 ;\n return\t(x!=y)/2;", "", "  ", "1+2*3-4;", "returnreturn return"] {
        let spelled: String = scan(src).unwrap().iter().map(spelling).collect();
        let unspaced: String = src.chars().filter(|c| !c.is_ascii_whitespace()).collect();
        assert_eq!(spelled, unspaced);
    }
}
