//! Lexical analysis: characters to tokens.
use vstd::prelude::*;
use vstd::string::*;

use crate::error::{fault, LexError, ParseError};

verus! {

/// Lexical class of one character.
#[derive(Debug, Clone, Copy, PartialEq, Eq, Structural)]
pub enum CharType {
    Whitespace,
    Num(char),
    Alphabetic(char),
    NonAlphabetic(char),
}

/// ASCII white space: space, tab, line feed, form feed, carriage return.
pub open spec fn is_space(c: char) -> bool {
    c == ' ' || c == '\t' || c == '\n' || c == '\x0C' || c == '\r'
}

/// ASCII decimal digit.
pub open spec fn is_digit(c: char) -> bool {
    '0' <= c <= '9'
}

/// ASCII letter of either case.
pub open spec fn is_alpha(c: char) -> bool {
    ('a' <= c <= 'z') || ('A' <= c <= 'Z')
}

/// A character that may continue a word once it has begun.
pub open spec fn is_word_char(c: char) -> bool {
    is_alpha(c) || is_digit(c)
}

/// The class of `c`; white space wins over digits, digits over letters.
pub open spec fn classify(c: char) -> CharType {
    if is_space(c) {
        CharType::Whitespace
    } else if is_digit(c) {
        CharType::Num(c)
    } else if is_alpha(c) {
        CharType::Alphabetic(c)
    } else {
        CharType::NonAlphabetic(c)
    }
}

impl CharType {
    /// The class of `c`.
    pub fn new(c: char) -> (r: CharType)
        ensures
            r == classify(c),
    {
        if c == ' ' || c == '\t' || c == '\n' || c == '\x0C' || c == '\r' {
            CharType::Whitespace
        } else if '0' <= c && c <= '9' {
            CharType::Num(c)
        } else if ('a' <= c && c <= 'z') || ('A' <= c && c <= 'Z') {
            CharType::Alphabetic(c)
        } else {
            CharType::NonAlphabetic(c)
        }
    }
}

/// The closed set of token tags, with the payload of literals and names.
#[derive(Debug)]
pub enum TokenKind {
    /// integer literal
    Num(i32),
    /// identifier, holding the scanned word
    Ident(String),
    /// `+`
    Plus,
    /// `-`
    Minus,
    /// `*`
    Mul,
    /// `/`
    Div,
    /// `(`
    LeftParen,
    /// `)`
    RightParen,
    /// `<`
    LeftAngleBracket,
    /// `>`
    RightAngleBracket,
    /// `=`
    Assign,
    /// `;`
    SemiColon,
    /// `==`
    EQ,
    /// `!=`
    NEQ,
    /// `<=`
    LE,
    /// `>=`
    RE,
    /// `return`
    Return,
    /// end of input
    EOF,
}

/// What a [`TokenKind`] stands for in contracts: the same tags, with the
/// identifier's text as a sequence of characters.
pub ghost enum Tok {
    Num(i32),
    Ident(Seq<char>),
    Plus,
    Minus,
    Mul,
    Div,
    LeftParen,
    RightParen,
    LeftAngleBracket,
    RightAngleBracket,
    Assign,
    SemiColon,
    EQ,
    NEQ,
    LE,
    RE,
    Return,
    EOF,
}

impl View for TokenKind {
    type V = Tok;

    open spec fn view(&self) -> Tok {
        match self {
            TokenKind::Num(v) => Tok::Num(*v),
            TokenKind::Ident(s) => Tok::Ident(s@),
            TokenKind::Plus => Tok::Plus,
            TokenKind::Minus => Tok::Minus,
            TokenKind::Mul => Tok::Mul,
            TokenKind::Div => Tok::Div,
            TokenKind::LeftParen => Tok::LeftParen,
            TokenKind::RightParen => Tok::RightParen,
            TokenKind::LeftAngleBracket => Tok::LeftAngleBracket,
            TokenKind::RightAngleBracket => Tok::RightAngleBracket,
            TokenKind::Assign => Tok::Assign,
            TokenKind::SemiColon => Tok::SemiColon,
            TokenKind::EQ => Tok::EQ,
            TokenKind::NEQ => Tok::NEQ,
            TokenKind::LE => Tok::LE,
            TokenKind::RE => Tok::RE,
            TokenKind::Return => Tok::Return,
            TokenKind::EOF => Tok::EOF,
        }
    }
}

impl PartialEq for TokenKind {
    /// Two kinds are equal when they carry the same tag and the same payload.
    fn eq(&self, other: &TokenKind) -> (r: bool) {
        match (self, other) {
            (TokenKind::Num(a), TokenKind::Num(b)) => *a == *b,
            (TokenKind::Ident(a), TokenKind::Ident(b)) => *a == *b,
            (TokenKind::Plus, TokenKind::Plus) => true,
            (TokenKind::Minus, TokenKind::Minus) => true,
            (TokenKind::Mul, TokenKind::Mul) => true,
            (TokenKind::Div, TokenKind::Div) => true,
            (TokenKind::LeftParen, TokenKind::LeftParen) => true,
            (TokenKind::RightParen, TokenKind::RightParen) => true,
            (TokenKind::LeftAngleBracket, TokenKind::LeftAngleBracket) => true,
            (TokenKind::RightAngleBracket, TokenKind::RightAngleBracket) => true,
            (TokenKind::Assign, TokenKind::Assign) => true,
            (TokenKind::SemiColon, TokenKind::SemiColon) => true,
            (TokenKind::EQ, TokenKind::EQ) => true,
            (TokenKind::NEQ, TokenKind::NEQ) => true,
            (TokenKind::LE, TokenKind::LE) => true,
            (TokenKind::RE, TokenKind::RE) => true,
            (TokenKind::Return, TokenKind::Return) => true,
            (TokenKind::EOF, TokenKind::EOF) => true,
            _ => false,
        }
    }
}

impl vstd::std_specs::cmp::PartialEqSpecImpl for TokenKind {
    open spec fn obeys_eq_spec() -> bool {
        true
    }

    open spec fn eq_spec(&self, other: &TokenKind) -> bool {
        self@ == other@
    }
}

impl Clone for TokenKind {
    /// A kind with the same tag and payload.
    fn clone(&self) -> (r: TokenKind)
        ensures
            r@ == self@,
    {
        match self {
            TokenKind::Num(v) => TokenKind::Num(*v),
            TokenKind::Ident(s) => TokenKind::Ident(s.clone()),
            TokenKind::Plus => TokenKind::Plus,
            TokenKind::Minus => TokenKind::Minus,
            TokenKind::Mul => TokenKind::Mul,
            TokenKind::Div => TokenKind::Div,
            TokenKind::LeftParen => TokenKind::LeftParen,
            TokenKind::RightParen => TokenKind::RightParen,
            TokenKind::LeftAngleBracket => TokenKind::LeftAngleBracket,
            TokenKind::RightAngleBracket => TokenKind::RightAngleBracket,
            TokenKind::Assign => TokenKind::Assign,
            TokenKind::SemiColon => TokenKind::SemiColon,
            TokenKind::EQ => TokenKind::EQ,
            TokenKind::NEQ => TokenKind::NEQ,
            TokenKind::LE => TokenKind::LE,
            TokenKind::RE => TokenKind::RE,
            TokenKind::Return => TokenKind::Return,
            TokenKind::EOF => TokenKind::EOF,
        }
    }
}

/// The token that one punctuation character stands for alone.
pub open spec fn single_symbol(c: char) -> Option<Tok> {
    if c == '+' {
        Some(Tok::Plus)
    } else if c == '-' {
        Some(Tok::Minus)
    } else if c == '*' {
        Some(Tok::Mul)
    } else if c == '/' {
        Some(Tok::Div)
    } else if c == '(' {
        Some(Tok::LeftParen)
    } else if c == ')' {
        Some(Tok::RightParen)
    } else if c == '<' {
        Some(Tok::LeftAngleBracket)
    } else if c == '>' {
        Some(Tok::RightAngleBracket)
    } else if c == '=' {
        Some(Tok::Assign)
    } else if c == ';' {
        Some(Tok::SemiColon)
    } else {
        None
    }
}

/// The token that two adjacent characters stand for together.
pub open spec fn double_symbol(a: char, b: char) -> Option<Tok> {
    if a == '=' && b == '=' {
        Some(Tok::EQ)
    } else if a == '!' && b == '=' {
        Some(Tok::NEQ)
    } else if a == '<' && b == '=' {
        Some(Tok::LE)
    } else if a == '>' && b == '=' {
        Some(Tok::RE)
    } else {
        None
    }
}

impl TokenKind {
    /// The symbol spelled by `c` alone, if there is one.
    pub fn new_single_letter(c: char) -> (r: Option<TokenKind>)
        ensures
            match r {
                Some(k) => single_symbol(c) == Some(k@),
                None => single_symbol(c) is None,
            },
    {
        match c {
            '+' => Some(TokenKind::Plus),
            '-' => Some(TokenKind::Minus),
            '*' => Some(TokenKind::Mul),
            '/' => Some(TokenKind::Div),
            '(' => Some(TokenKind::LeftParen),
            ')' => Some(TokenKind::RightParen),
            '<' => Some(TokenKind::LeftAngleBracket),
            '>' => Some(TokenKind::RightAngleBracket),
            '=' => Some(TokenKind::Assign),
            ';' => Some(TokenKind::SemiColon),
            _ => None,
        }
    }

    /// The two-character symbol spelled by `a` followed by `b`, if there is one.
    pub fn new_double_letter(a: char, b: char) -> (r: Option<TokenKind>)
        ensures
            match r {
                Some(k) => double_symbol(a, b) == Some(k@),
                None => double_symbol(a, b) is None,
            },
    {
        if b != '=' {
            None
        } else if a == '=' {
            Some(TokenKind::EQ)
        } else if a == '!' {
            Some(TokenKind::NEQ)
        } else if a == '<' {
            Some(TokenKind::LE)
        } else if a == '>' {
            Some(TokenKind::RE)
        } else {
            None
        }
    }
}

/// One lexical unit.
#[derive(Debug)]
pub struct Token {
    pub kind: TokenKind,
}

impl View for Token {
    type V = Tok;

    open spec fn view(&self) -> Tok {
        self.kind@
    }
}

impl Token {
    /// A token of kind `kind`.
    pub fn new(kind: TokenKind) -> (r: Token)
        ensures
            r.kind == kind,
    {
        Token { kind }
    }

    /// The end-of-input marker.
    pub fn new_eof() -> (r: Token)
        ensures
            r@ == Tok::EOF,
    {
        Token { kind: TokenKind::EOF }
    }

    /// The error that reports this token at index `pos`, where the grammar
    /// asks for `expected`, or for an operand where `expected` is `None`.
    pub fn bad_token(&self, expected: Option<TokenKind>, pos: usize) -> (r: ParseError)
        ensures
            r@ == fault(
                match expected {
                    Some(kind) => Some(kind@),
                    None => None,
                },
                self@,
                pos as int,
            ),
    {
        match expected {
            Some(kind) => ParseError::Expected { kind, found: self.kind.clone(), pos },
            None => ParseError::OperandExpected { found: self.kind.clone(), pos },
        }
    }
}

/// The token sequence that a vector of tokens stands for.
pub open spec fn kinds(v: Seq<Token>) -> Seq<Tok> {
    Seq::new(v.len(), |i: int| v[i]@)
}

/// The reserved word that ends a routine early.
pub open spec fn return_word() -> Seq<char> {
    "return"@
}

/// The value of a decimal digit.
pub open spec fn digit_value(c: char) -> i32 {
    (c as int - '0' as int) as i32
}

/// Where the run of word characters that covers `p` stops: the first index
/// from `p` on that holds no letter and no digit, or the end of `s`.
pub open spec fn word_end(s: Seq<char>, p: int) -> int
    decreases s.len() - p,
{
    if 0 <= p < s.len() && is_word_char(s[p]) {
        word_end(s, p + 1)
    } else {
        p
    }
}

/// The run that `word_end` measures is maximal: every character in it is a
/// word character, and it stops only at the end of `s` or before a character
/// that is none.
pub proof fn lemma_word_end(s: Seq<char>, p: int)
    requires
        0 <= p <= s.len(),
    ensures
        p <= word_end(s, p) <= s.len(),
        forall|i: int| p <= i < word_end(s, p) ==> is_word_char(#[trigger] s[i]),
        word_end(s, p) < s.len() ==> !is_word_char(s[word_end(s, p)]),
    decreases s.len() - p,
{
    if p < s.len() && is_word_char(s[p]) {
        lemma_word_end(s, p + 1);
    }
}

/// The token that a scanned word stands for: the keyword on an exact match,
/// else an identifier that holds the word.
pub open spec fn word_token(word: Seq<char>) -> Tok {
    if word == return_word() {
        Tok::Return
    } else {
        Tok::Ident(word)
    }
}

/// The token that begins at index `p` of `s`, which holds no white space,
/// with the index just behind it; `None` where no token begins with `s[p]`.
/// A digit is a literal by itself.  A letter begins the longest word.  Of the
/// symbols the two-character ones are tried first.
pub open spec fn token_at(s: Seq<char>, p: int) -> Option<(Tok, int)>
    recommends
        0 <= p < s.len(),
{
    let c = s[p];
    if is_digit(c) {
        Some((Tok::Num(digit_value(c)), p + 1))
    } else if is_alpha(c) {
        let end = word_end(s, p + 1);
        Some((word_token(s.subrange(p, end)), end))
    } else if p + 1 < s.len() && double_symbol(c, s[p + 1]) is Some {
        Some((double_symbol(c, s[p + 1]).unwrap(), p + 2))
    } else if single_symbol(c) is Some {
        Some((single_symbol(c).unwrap(), p + 1))
    } else {
        None
    }
}

/// The tokens of `s` from index `p` on, closed by the end-of-input marker, or
/// the first character from `p` on that begins no token.
pub open spec fn lex(s: Seq<char>, p: int) -> Result<Seq<Tok>, LexError>
    decreases s.len() - p,
{
    if p < 0 || p >= s.len() {
        Ok(seq![Tok::EOF])
    } else if is_space(s[p]) {
        lex(s, p + 1)
    } else {
        match token_at(s, p) {
            None => Err(LexError { ch: s[p], pos: p as usize }),
            Some((tok, next)) => {
                proof {
                    lemma_word_end(s, p + 1);
                }
                match lex(s, next) {
                    Ok(rest) => Ok(seq![tok] + rest),
                    Err(e) => Err(e),
                }
            },
        }
    }
}

/// A token sequence ends with the end-of-input marker and holds it nowhere
/// else.
pub open spec fn closed_by_eof(t: Seq<Tok>) -> bool {
    &&& t.len() >= 1
    &&& t.last() == Tok::EOF
    &&& forall|i: int| 0 <= i < t.len() - 1 ==> #[trigger] t[i] != Tok::EOF
}

/// Whatever the source, the tokens that are scanned from it end with the
/// end-of-input marker, which stands nowhere else among them.
pub proof fn lemma_lex_closed(s: Seq<char>, p: int)
    ensures
        lex(s, p) matches Ok(t) ==> closed_by_eof(t),
    decreases s.len() - p,
{
    if 0 <= p < s.len() {
        if is_space(s[p]) {
            lemma_lex_closed(s, p + 1);
        } else if let Some((tok, next)) = token_at(s, p) {
            lemma_word_end(s, p + 1);
            lemma_lex_closed(s, next);
            if let Ok(rest) = lex(s, next) {
                let t = seq![tok] + rest;
                assert(t.last() == rest.last());
                assert forall|i: int| 0 <= i < t.len() - 1 implies #[trigger] t[i] != Tok::EOF by {
                    if i > 0 {
                        assert(t[i] == rest[i - 1]);
                    }
                }
            }
        }
    }
}

/// How a token is spelled in a source text; the end-of-input marker has
/// no spelling.
pub open spec fn spelling(tok: Tok) -> Seq<char> {
    match tok {
        Tok::Num(v) => seq![('0' as int + v) as char],
        Tok::Ident(word) => word,
        Tok::Plus => seq!['+'],
        Tok::Minus => seq!['-'],
        Tok::Mul => seq!['*'],
        Tok::Div => seq!['/'],
        Tok::LeftParen => seq!['('],
        Tok::RightParen => seq![')'],
        Tok::LeftAngleBracket => seq!['<'],
        Tok::RightAngleBracket => seq!['>'],
        Tok::Assign => seq!['='],
        Tok::SemiColon => seq![';'],
        Tok::EQ => seq!['=', '='],
        Tok::NEQ => seq!['!', '='],
        Tok::LE => seq!['<', '='],
        Tok::RE => seq!['>', '='],
        Tok::Return => return_word(),
        Tok::EOF => Seq::empty(),
    }
}

/// The spellings of a token sequence, one behind the other.
pub open spec fn spelled(t: Seq<Tok>) -> Seq<char>
    decreases t.len(),
{
    if t.len() == 0 {
        Seq::empty()
    } else {
        spelling(t[0]) + spelled(t.drop_first())
    }
}

/// The characters of `s` from index `p` on, without the white space.
pub open spec fn unspaced(s: Seq<char>, p: int) -> Seq<char>
    decreases s.len() - p,
{
    if p < 0 || p >= s.len() {
        Seq::empty()
    } else if is_space(s[p]) {
        unspaced(s, p + 1)
    } else {
        seq![s[p]] + unspaced(s, p + 1)
    }
}

/// A stretch without white space stays as it is.
proof fn lemma_unspaced_stretch(s: Seq<char>, p: int, q: int)
    requires
        0 <= p <= q <= s.len(),
        forall|i: int| p <= i < q ==> !is_space(#[trigger] s[i]),
    ensures
        unspaced(s, p) == s.subrange(p, q) + unspaced(s, q),
    decreases q - p,
{
    if p == q {
        assert(s.subrange(p, q) + unspaced(s, q) =~= unspaced(s, q));
    } else {
        lemma_unspaced_stretch(s, p + 1, q);
        assert(seq![s[p]] + (s.subrange(p + 1, q) + unspaced(s, q)) =~= s.subrange(p, q)
            + unspaced(s, q));
    }
}

/// A token is spelled as the characters from which it was scanned.
proof fn lemma_token_spelling(s: Seq<char>, p: int)
    requires
        0 <= p < s.len(),
        !is_space(s[p]),
        token_at(s, p) is Some,
    ensures
        ({
            let (tok, next) = token_at(s, p).unwrap();
            &&& p < next <= s.len()
            &&& spelling(tok) == s.subrange(p, next)
            &&& forall|i: int| p <= i < next ==> !is_space(#[trigger] s[i])
        }),
{
    let (tok, next) = token_at(s, p).unwrap();
    lemma_word_end(s, p + 1);
    let c = s[p];
    if is_digit(c) {
        assert(spelling(tok) =~= s.subrange(p, next));
    } else if is_alpha(c) {
        assert(spelling(tok) =~= s.subrange(p, next));
    } else if p + 1 < s.len() && double_symbol(c, s[p + 1]) is Some {
        assert(spelling(tok) =~= s.subrange(p, next));
    } else {
        assert(spelling(tok) =~= s.subrange(p, next));
    }
}

/// Scanning neither drops nor invents a character: the spellings of the
/// tokens, one behind the other, are the source without its white space.
pub proof fn lemma_lex_spells_source(s: Seq<char>, p: int)
    requires
        0 <= p,
    ensures
        lex(s, p) matches Ok(t) ==> spelled(t) == unspaced(s, p),
    decreases s.len() - p,
{
    if p >= s.len() {
        let t = seq![Tok::EOF];
        assert(t.drop_first() =~= Seq::<Tok>::empty());
        assert(spelled(t.drop_first()) =~= Seq::<char>::empty());
        assert(spelled(t) =~= Seq::<char>::empty());
    } else if is_space(s[p]) {
        lemma_lex_spells_source(s, p + 1);
    } else if let Some((tok, next)) = token_at(s, p) {
        lemma_token_spelling(s, p);
        lemma_lex_spells_source(s, next);
        if let Ok(rest) = lex(s, next) {
            let t = seq![tok] + rest;
            assert(t.drop_first() =~= rest);
            lemma_unspaced_stretch(s, p, next);
        }
    }
}

/// The tokens of a whole source text.
pub open spec fn lex_all(s: Seq<char>) -> Result<Seq<Tok>, LexError> {
    lex(s, 0)
}

/// A cursor over the characters of one source text.
pub struct Tokenizer {
    text: String,
    chars: Vec<char>,
    pos: usize,
}

impl Tokenizer {
    /// The characters of the source text.
    pub closed spec fn source(&self) -> Seq<char> {
        self.chars@
    }

    /// The index of the next character to read.
    pub closed spec fn cursor(&self) -> int {
        self.pos as int
    }

    /// The two copies of the source agree.
    pub closed spec fn wf(&self) -> bool {
        self.text@ == self.chars@
    }

    /// A cursor at the first character of `s`.
    pub fn new(s: &String) -> (r: Tokenizer)
        ensures
            r.wf(),
            r.source() == s@,
            r.cursor() == 0,
    {
        let mut chars: Vec<char> = Vec::new();
        for c in it: s.as_str().chars()
            invariant
                it.seq() == s@,
                chars@ == it.seq().take(it.index()),
        {
            chars.push(c);
        }
        assert(chars@ =~= s@);
        Tokenizer { text: s.clone(), chars, pos: 0 }
    }

    /// The class of the character at `pos`, if there is one.
    pub fn get_by_pos(&self, pos: usize) -> (r: Option<CharType>)
        ensures
            r == if pos < self.source().len() {
                Some(classify(self.source()[pos as int]))
            } else {
                None
            },
    {
        if pos < self.chars.len() {
            Some(CharType::new(self.chars[pos]))
        } else {
            None
        }
    }

    /// The word that begins at the cursor.
    fn get_keyword(&self) -> (r: String)
        requires
            self.wf(),
            self.cursor() < self.source().len(),
        ensures
            r@ == self.source().subrange(self.cursor(), word_end(self.source(), self.cursor() + 1)),
            self.cursor() < word_end(self.source(), self.cursor() + 1) <= self.source().len(),
    {
        let len = self.chars.len();
        let mut end: usize = self.pos + 1;
        proof {
            lemma_word_end(self.chars@, self.pos + 1);
        }
        while end < len && Self::is_word(self.chars[end])
            invariant
                len == self.chars.len(),
                self.pos < end <= len,
                word_end(self.chars@, end as int) == word_end(self.chars@, self.pos + 1),
            decreases len - end,
        {
            end += 1;
        }
        String::from_str(self.text.as_str().substring_char(self.pos, end))
    }

    /// Whether `c` may continue a word.
    fn is_word(c: char) -> (r: bool)
        ensures
            r == is_word_char(c),
    {
        match CharType::new(c) {
            CharType::Alphabetic(_) => true,
            CharType::Num(_) => true,
            _ => false,
        }
    }

    /// Scans the source from the cursor to its end, and leaves the cursor
    /// there; at the first character that begins no token it stops, and
    /// leaves the cursor at that character.
    pub fn generate(&mut self) -> (r: Result<Vec<Token>, LexError>)
        requires
            old(self).wf(),
        ensures
            final(self).wf(),
            final(self).source() == old(self).source(),
            lex(old(self).source(), old(self).cursor()) == lexed(r),
            match r {
                Ok(_) => final(self).cursor() == if old(self).cursor() <= old(self).source().len() {
                    old(self).source().len() as int
                } else {
                    old(self).cursor()
                },
                Err(e) => final(self).cursor() == e.pos,
            },
    {
        let mut tokens: Vec<Token> = Vec::new();
        let ghost src = self.chars@;
        let ghost start = self.pos as int;
        while self.pos < self.chars.len()
            invariant
                self.wf(),
                self.chars@ == src,
                src == old(self).chars@,
                start == old(self).pos,
                start <= self.pos,
                start <= src.len() ==> self.pos <= src.len(),
                start > src.len() ==> self.pos == start,
                lex(src, start) == prepend(kinds(tokens@), lex(src, self.pos as int)),
            decreases self.chars.len() - self.pos,
        {
            let ghost before = kinds(tokens@);
            let c = self.chars[self.pos];
            match CharType::new(c) {
                CharType::Whitespace => {
                    self.pos += 1;
                },
                CharType::Alphabetic(_) => {
                    let keyword = self.get_keyword();
                    let len = keyword.as_str().unicode_len();
                    let reserved = String::from_str("return");
                    if keyword == reserved {
                        tokens.push(Token::new(TokenKind::Return));
                    } else {
                        tokens.push(Token::new(TokenKind::Ident(keyword)));
                    }
                    proof {
                        let t = token_at(src, self.pos as int).unwrap().0;
                        assert(kinds(tokens@) =~= before.push(t));
                        lemma_prepend_push(before, t, lex(src, self.pos + len));
                    }
                    self.pos += len;
                },
                CharType::Num(d) => {
                    let val = (d as u8 - 48u8) as i32;
                    tokens.push(Token::new(TokenKind::Num(val)));
                    proof {
                        let t = Tok::Num(digit_value(d));
                        assert(kinds(tokens@) =~= before.push(t));
                        lemma_prepend_push(before, t, lex(src, self.pos + 1));
                    }
                    self.pos += 1;
                },
                CharType::NonAlphabetic(c) => {
                    if self.pos + 1 < self.chars.len() {
                        if let Some(kind) = TokenKind::new_double_letter(c, self.chars[self.pos + 1]) {
                            proof {
                                assert(kinds(tokens@.push(Token { kind })) =~= before.push(kind@));
                                lemma_prepend_push(before, kind@, lex(src, self.pos + 2));
                            }
                            tokens.push(Token::new(kind));
                            self.pos += 2;
                            continue ;
                        }
                    }
                    if let Some(kind) = TokenKind::new_single_letter(c) {
                        proof {
                            assert(kinds(tokens@.push(Token { kind })) =~= before.push(kind@));
                            lemma_prepend_push(before, kind@, lex(src, self.pos + 1));
                        }
                        tokens.push(Token::new(kind));
                        self.pos += 1;
                    } else {
                        return Err(LexError { ch: c, pos: self.pos });
                    }
                },
            }
        }
        proof {
            let t = Tok::EOF;
            assert(kinds(tokens@.push(Token { kind: TokenKind::EOF })) =~= kinds(tokens@) + seq![t]);
        }
        tokens.push(Token::new_eof());
        Ok(tokens)
    }
}

/// What the outcome of a scan stands for in contracts.
pub open spec fn lexed(r: Result<Vec<Token>, LexError>) -> Result<Seq<Tok>, LexError> {
    match r {
        Ok(tokens) => Ok(kinds(tokens@)),
        Err(e) => Err(e),
    }
}

/// `rest` with `head` put before it, where `rest` is a token sequence.
spec fn prepend(head: Seq<Tok>, rest: Result<Seq<Tok>, LexError>) -> Result<
    Seq<Tok>,
    LexError,
> {
    match rest {
        Ok(tail) => Ok(head + tail),
        Err(e) => Err(e),
    }
}

/// Putting a token behind the head is putting it before the rest.
proof fn lemma_prepend_push(head: Seq<Tok>, t: Tok, rest: Result<Seq<Tok>, LexError>)
    ensures
        prepend(head, prepend(seq![t], rest)) == prepend(head.push(t), rest),
{
    match rest {
        Ok(tail) => {
            assert(head + (seq![t] + tail) =~= head.push(t) + tail);
        },
        Err(_) => {},
    }
}

} // verus!
