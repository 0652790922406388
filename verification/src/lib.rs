//! A compiler from a small C-like expression language to x86-64 assembly text.
//!
//! The pipeline runs strictly forward: [`token`] turns characters into tokens,
//! [`parse`] turns tokens into statement trees, [`codegen`] turns trees into
//! the text of one assembly routine for a stack machine.
//!
//! [`semantics`] says what a tree means, [`machine`] what the emitted lines
//! do, and the two are proved to agree: the routine returns the value that
//! the source gives its last statement.
use vstd::prelude::*;

pub mod codegen;
pub mod config;
pub mod error;
pub mod machine;
pub mod parse;
pub mod semantics;
pub mod token;

pub use crate::config::Config;

use crate::codegen::{
    check_all, codegen, fault_before, lemma_no_fault, program_lines, text,
};
use crate::error::{CompileError, CompileFault};
use crate::machine::{entering, found, lemma_program, returned, Machine};
use crate::parse::{lemma_parsed_grammatical, parse, statements, Node};
use crate::semantics::{
    evaluate_all, eval_all, in_range, last_value, meaningful, zeros, Outcome, Variables,
};
use crate::token::{lex_all, Tokenizer};

verus! {

/// The statement trees of the source text `src`, or the failure of the
/// first stage that refuses it: a character that begins no token, a token
/// out of place, a tree that cannot be generated.
pub open spec fn analysed(src: Seq<char>) -> Result<Seq<Node>, CompileFault> {
    match lex_all(src) {
        Err(e) => Err(CompileFault::Lexical(e)),
        Ok(tokens) => match statements(tokens, 0) {
            Err(e) => Err(CompileFault::Syntax(e)),
            Ok(nodes) => match fault_before(nodes, nodes.len() as int) {
                Some(e) => Err(CompileFault::Generation(e)),
                None => Ok(nodes),
            },
        },
    }
}

/// The assembly text of the source text `src`, or the failure of the first
/// stage that refuses it.
pub open spec fn compiled(src: Seq<char>) -> Result<Seq<char>, CompileFault> {
    match analysed(src) {
        Err(e) => Err(e),
        Ok(nodes) => Ok(text(program_lines(nodes))),
    }
}

/// The value that the last statement of the source text `src` has when the
/// statements run one after the other and every variable holds zero at
/// first; no value inside where there is no statement, and `None` where a
/// division stops the run.
pub open spec fn interpreted(src: Seq<char>) -> Result<Option<Option<int>>, CompileFault> {
    match analysed(src) {
        Err(e) => Err(e),
        Ok(nodes) => Ok(last_value(eval_all(nodes, nodes.len() as int, zeros()))),
    }
}

/// What the outcome of a compilation stands for.
pub open spec fn outcome(r: Result<String, CompileError>) -> Result<Seq<char>, CompileFault> {
    match r {
        Ok(code) => Ok(code@),
        Err(e) => Err(e@),
    }
}

/// What the outcome of an interpretation stands for.
pub open spec fn told(r: Result<Outcome, CompileError>) -> Result<Option<Option<int>>, CompileFault> {
    match r {
        Ok(o) => Ok(o.last()),
        Err(e) => Err(e@),
    }
}

/// Scans and parses `source`.
fn analyse(source: &String) -> (r: Result<Vec<Node>, CompileError>)
    ensures
        match r {
            Ok(nodes) => analysed(source@) == Ok::<Seq<Node>, CompileFault>(nodes@),
            Err(e) => analysed(source@) == Err::<Seq<Node>, CompileFault>(e@),
        },
{
    let mut tokenizer = Tokenizer::new(source);
    let tokens = match tokenizer.generate() {
        Ok(tokens) => tokens,
        Err(e) => {
            return Err(CompileError::Lexical(e));
        },
    };
    let nodes = match parse(tokens) {
        Ok(nodes) => nodes,
        Err(e) => {
            return Err(CompileError::Syntax(e));
        },
    };
    match check_all(&nodes) {
        Ok(_) => Ok(nodes),
        Err(e) => Err(CompileError::Generation(e)),
    }
}

/// Compiles the source text `source` to assembly text.  No text comes back
/// for a source that any stage refuses.
pub fn compile(source: &String) -> (r: Result<String, CompileError>)
    ensures
        compiled(source@) == outcome(r),
{
    let nodes = analyse(source)?;
    match codegen(nodes) {
        Ok(code) => Ok(code),
        Err(e) => Err(CompileError::Generation(e)),
    }
}

/// Runs the statements of the source text `source` one after the other,
/// every variable holding zero at first, and tells the value of the last.
pub fn interpret(source: &String) -> (r: Result<Outcome, CompileError>)
    ensures
        interpreted(source@) == told(r),
{
    let nodes = analyse(source)?;
    proof {
        lemma_analysed_meaningful(source@);
    }
    let mut vars = Variables::new();
    Ok(evaluate_all(&nodes, &mut vars))
}

/// The trees of a source text that no stage refuses are trees of the
/// grammar without a fault.
pub proof fn lemma_analysed_meaningful(src: Seq<char>)
    ensures
        analysed(src) matches Ok(nodes) ==> meaningful(nodes),
{
    if let Ok(nodes) = analysed(src) {
        let tokens = lex_all(src)->Ok_0;
        lemma_parsed_grammatical(tokens, 0);
        lemma_no_fault(nodes, nodes.len() as int);
    }
}

/// A source text that the scanner or the parser refuses has no assembly
/// text: nothing is emitted for malformed input.
pub proof fn lemma_malformed_is_refused(src: Seq<char>)
    requires
        lex_all(src) is Err || statements(lex_all(src)->Ok_0, 0) is Err,
    ensures
        compiled(src) is Err,
{
}

/// The routine that is compiled from a source text returns the value that
/// the source gives its last statement.  From any state in which the
/// processor enters the routine, running the lines whose text is the
/// compiled text ends in a return with that value in `rax`, with the
/// caller's stack and frame base restored and the caller's memory
/// untouched; or it ends in a divide error where a statement divides by
/// zero, or the least integer by -1.
pub proof fn lemma_compiled_returns_value(src: Seq<char>, m: Machine)
    requires
        analysed(src) is Ok,
        entering(m),
        forall|a: int| in_range(#[trigger] (m.mem)(a)),
    ensures
        compiled(src) == Ok::<Seq<char>, CompileFault>(text(program_lines(analysed(src)->Ok_0))),
        returned(analysed(src)->Ok_0, m, m.run(program_lines(analysed(src)->Ok_0))),
{
    lemma_analysed_meaningful(src);
    lemma_program(analysed(src)->Ok_0, m);
}

/// Where the frame holds zeros when the routine is entered, the routine
/// returns what interpreting the source tells: the same value in `rax`,
/// and a divide error for the same sources.
pub proof fn lemma_interpreted_is_returned(src: Seq<char>, m: Machine)
    requires
        analysed(src) is Ok,
        entering(m),
        forall|a: int| in_range(#[trigger] (m.mem)(a)),
        found(m) == zeros(),
    ensures
        ({
            let after = m.run(program_lines(analysed(src)->Ok_0));
            match interpreted(src) {
                Ok(Some(Some(v))) => after.status is Returned && after.rax == v,
                Ok(Some(None)) => after.status is Returned && after.rax == m.rax,
                Ok(None) => after.status is Trapped,
                Err(_) => false,
            }
        }),
{
    lemma_compiled_returns_value(src, m);
}

} // verus!
