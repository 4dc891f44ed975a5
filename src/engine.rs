//! Entry points that run the whole pipeline: parse, compile, then match or
//! hand back the intermediate results.
use vstd::prelude::*;
use crate::parser::{Ast, ParseError, parse, parse_spec};
use crate::codegen::{CodegenError, Instruction, code_len, compile, get_code, valid_program, lemma_compile_valid};
use crate::evaluator::{EvalError, accepts, eval};

verus! {

/// The first failure of any stage.
#[derive(Debug, Clone, Copy, PartialEq, Eq)]
pub enum Error {
    Parse(ParseError),
    Codegen(CodegenError),
    Eval(EvalError),
}

/// The program for a pattern, or the error that stops its compilation.
pub open spec fn program_of(pattern: Seq<char>) -> Result<Seq<Instruction>, Error> {
    match parse_spec(pattern) {
        Err(e) => Err(Error::Parse(e)),
        Ok(a) => if code_len(a) + 1 > usize::MAX {
            Err(Error::Codegen(CodegenError::TooLarge))
        } else {
            Ok(compile(a))
        },
    }
}

/// Whether `line` as a whole matches `pattern`, or why the pattern is rejected.
pub open spec fn matching(pattern: Seq<char>, line: Seq<char>) -> Result<bool, Error> {
    match program_of(pattern) {
        Err(e) => Err(e),
        Ok(prog) => Ok(accepts(prog, line)),
    }
}

/// Relies on `str::chars`: the characters of `s` in order.
#[verifier::external_body]
fn chars_of(s: &str) -> (r: Vec<char>)
    ensures
        r@ == s@,
{
    s.chars().collect()
}

/// Matches `line` against `expr`, depth-first or breadth-first. The whole of
/// `line` must be consumed for a match.
pub fn do_matching(expr: &str, line: &str, is_depth: bool) -> (r: Result<bool, Error>)
    ensures
        r == matching(expr@, line@),
{
    let pattern = chars_of(expr);
    let ast = match parse(&pattern) {
        Ok(a) => a,
        Err(e) => return Err(Error::Parse(e)),
    };
    let code = match get_code(&ast) {
        Ok(c) => c,
        Err(e) => return Err(Error::Codegen(e)),
    };
    let line = chars_of(line);
    match eval(&code, &line, is_depth) {
        Ok(b) => Ok(b),
        Err(e) => Err(Error::Eval(e)),
    }
}

/// The syntax tree and the program of `expr`, as a diagnostic dump shows them.
pub fn dump(expr: &str) -> (r: Result<(Ast, Vec<Instruction>), Error>)
    ensures
        match r {
            Ok((a, code)) => parse_spec(expr@) == Ok::<Ast, ParseError>(a) && program_of(expr@) == Ok::<Seq<Instruction>, Error>(code@),
            Err(e) => program_of(expr@) == Err::<Seq<Instruction>, Error>(e),
        },
{
    let pattern = chars_of(expr);
    let ast = match parse(&pattern) {
        Ok(a) => a,
        Err(e) => return Err(Error::Parse(e)),
    };
    match get_code(&ast) {
        Ok(c) => Ok((ast, c)),
        Err(e) => Err(Error::Codegen(e)),
    }
}

/// A pattern that fails to parse is rejected with its parse error, whichever
/// strategy is asked for.
pub proof fn lemma_parse_error_any_mode(pattern: Seq<char>, line: Seq<char>)
    requires
        parse_spec(pattern) is Err,
    ensures
        matching(pattern, line) == Err::<bool, Error>(Error::Parse(parse_spec(pattern)->Err_0)),
{
}

/// A pattern whose first character is a quantifier or `|` does not parse.
pub proof fn lemma_leading_operator_rejected(pattern: Seq<char>)
    requires
        pattern.len() > 0,
        pattern[0] == '*' || pattern[0] == '+' || pattern[0] == '?' || pattern[0] == '|',
    ensures
        parse_spec(pattern) == Err::<Ast, ParseError>(ParseError::Unexpected(0)),
{
}

/// Every compiled program of a pattern has all its jump targets in bounds.
pub proof fn lemma_program_valid(pattern: Seq<char>)
    requires
        program_of(pattern) is Ok,
    ensures
        valid_program(program_of(pattern)->Ok_0),
{
    lemma_compile_valid(parse_spec(pattern)->Ok_0);
}

} // verus!
