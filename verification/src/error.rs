//! The typed failures of each stage.
use vstd::prelude::*;

use crate::token::{Tok, TokenKind};

verus! {

/// A character that begins no token, and where it stands in the source.
#[derive(Debug, Clone, Copy, PartialEq, Eq, Structural)]
pub struct LexError {
    /// the offending character
    pub ch: char,
    /// its index in the source, counted in characters
    pub pos: usize,
}

/// A token that the grammar does not allow where it stands.
#[derive(Debug, PartialEq)]
pub enum ParseError {
    /// The grammar asks for `kind` at index `pos` of the tokens, where
    /// `found` stands.
    Expected { kind: TokenKind, found: TokenKind, pos: usize },
    /// An operand has to begin at index `pos` of the tokens, where `found`
    /// stands: a token that is no literal, no variable name and no `(`.
    OperandExpected { found: TokenKind, pos: usize },
}

/// What a [`ParseError`] stands for in contracts.
pub ghost enum ParseFault {
    Expected { kind: Tok, found: Tok, pos: int },
    OperandExpected { found: Tok, pos: int },
}

impl View for ParseError {
    type V = ParseFault;

    open spec fn view(&self) -> ParseFault {
        match self {
            ParseError::Expected { kind, found, pos } => ParseFault::Expected {
                kind: kind@,
                found: found@,
                pos: *pos as int,
            },
            ParseError::OperandExpected { found, pos } => ParseFault::OperandExpected {
                found: found@,
                pos: *pos as int,
            },
        }
    }
}

/// The fault that reports `found` at index `pos` where `expected` was due;
/// `None` stands for an operand.
pub open spec fn fault(expected: Option<Tok>, found: Tok, pos: int) -> ParseFault {
    match expected {
        Some(kind) => ParseFault::Expected { kind, found, pos },
        None => ParseFault::OperandExpected { found, pos },
    }
}

/// A tree that the grammar cannot have produced.
#[derive(Debug, Clone, Copy, PartialEq, Eq, Structural)]
pub enum GenError {
    /// The target of an assignment is no variable.
    NotAssignable,
    /// A binary node carries a token that is no arithmetic or comparison
    /// operator of the generator.
    BadOperator,
}

/// Why a source text was not compiled: the failure of the stage that
/// refused it.
#[derive(Debug, PartialEq)]
pub enum CompileError {
    /// a character begins no token
    Lexical(LexError),
    /// a token stands where the grammar does not allow it
    Syntax(ParseError),
    /// a tree cannot be generated
    Generation(GenError),
}

/// What a [`CompileError`] stands for in contracts.
pub ghost enum CompileFault {
    Lexical(LexError),
    Syntax(ParseFault),
    Generation(GenError),
}

impl View for CompileError {
    type V = CompileFault;

    open spec fn view(&self) -> CompileFault {
        match self {
            CompileError::Lexical(e) => CompileFault::Lexical(*e),
            CompileError::Syntax(e) => CompileFault::Syntax(e@),
            CompileError::Generation(e) => CompileFault::Generation(*e),
        }
    }
}

} // verus!
