//! Recursive-descent parser for patterns made of literal characters,
//! concatenation, alternation `|`, grouping `( )` and the quantifiers
//! `*`, `+`, `?`.
use vstd::prelude::*;

verus! {

/// Syntax tree of a pattern.
#[derive(Debug, PartialEq, Eq)]
pub enum Ast {
    Char(char),
    Concat(Box<Ast>, Box<Ast>),
    Alt(Box<Ast>, Box<Ast>),
    Star(Box<Ast>),
    Plus(Box<Ast>),
    Question(Box<Ast>),
}

/// Why a pattern was rejected.
#[derive(Debug, Clone, Copy, PartialEq, Eq)]
pub enum ParseError {
    /// The character at this position cannot stand there.
    Unexpected(usize),
    /// The pattern ended where an atom was expected.
    UnexpectedEnd,
    /// The group opened at this position is never closed.
    Unclosed(usize),
}

pub open spec fn is_quantifier(c: char) -> bool {
    c == '*' || c == '+' || c == '?'
}

/// A character that can begin an atom: a literal or an opening parenthesis.
pub open spec fn starts_atom(c: char) -> bool {
    !is_quantifier(c) && c != '|' && c != ')'
}

pub type ParseResult = Result<(Ast, int), ParseError>;

pub open spec fn err_at(s: Seq<char>, pos: int) -> ParseError {
    if pos < s.len() {
        ParseError::Unexpected(pos as usize)
    } else {
        ParseError::UnexpectedEnd
    }
}

/// `expr := term ('|' term)*`, left-associative.
pub open spec fn parse_expr(s: Seq<char>, pos: int) -> ParseResult
    decreases s.len() - pos, 4int,
{
    if 0 <= pos <= s.len() {
        match parse_term(s, pos) {
            Ok((t, p)) => if pos < p <= s.len() { parse_expr_rest(s, p, t) } else { Err(err_at(s, pos)) },
            Err(e) => Err(e),
        }
    } else {
        Err(ParseError::UnexpectedEnd)
    }
}

/// The `('|' term)*` tail of an expression whose first part is `left`.
pub open spec fn parse_expr_rest(s: Seq<char>, pos: int, left: Ast) -> ParseResult
    decreases s.len() - pos, 5int,
{
    if 0 <= pos < s.len() && s[pos] == '|' {
        match parse_term(s, pos + 1) {
            Ok((t, p)) => if pos < p <= s.len() {
                parse_expr_rest(s, p, Ast::Alt(Box::new(left), Box::new(t)))
            } else {
                Err(err_at(s, pos))
            },
            Err(e) => Err(e),
        }
    } else {
        Ok((left, pos))
    }
}

/// `term := factor+`, concatenated left to right.
pub open spec fn parse_term(s: Seq<char>, pos: int) -> ParseResult
    decreases s.len() - pos, 3int,
{
    if 0 <= pos < s.len() && starts_atom(s[pos]) {
        match parse_factor(s, pos) {
            Ok((f, p)) => if pos < p <= s.len() { parse_term_rest(s, p, f) } else { Err(err_at(s, pos)) },
            Err(e) => Err(e),
        }
    } else {
        Err(err_at(s, pos))
    }
}

/// The remaining factors of a term whose first part is `left`.
pub open spec fn parse_term_rest(s: Seq<char>, pos: int, left: Ast) -> ParseResult
    decreases s.len() - pos, 6int,
{
    if 0 <= pos < s.len() && starts_atom(s[pos]) {
        match parse_factor(s, pos) {
            Ok((f, p)) => if pos < p <= s.len() {
                parse_term_rest(s, p, Ast::Concat(Box::new(left), Box::new(f)))
            } else {
                Err(err_at(s, pos))
            },
            Err(e) => Err(e),
        }
    } else {
        Ok((left, pos))
    }
}

/// `factor := atom ('*' | '+' | '?')?`
pub open spec fn parse_factor(s: Seq<char>, pos: int) -> ParseResult
    decreases s.len() - pos, 2int,
{
    match parse_atom(s, pos) {
        Ok((a, p)) => if 0 <= p < s.len() && s[p] == '*' {
            Ok((Ast::Star(Box::new(a)), p + 1))
        } else if 0 <= p < s.len() && s[p] == '+' {
            Ok((Ast::Plus(Box::new(a)), p + 1))
        } else if 0 <= p < s.len() && s[p] == '?' {
            Ok((Ast::Question(Box::new(a)), p + 1))
        } else {
            Ok((a, p))
        },
        Err(e) => Err(e),
    }
}

/// `atom := CHAR | '(' expr ')'`
pub open spec fn parse_atom(s: Seq<char>, pos: int) -> ParseResult
    decreases s.len() - pos, 1int,
{
    if 0 <= pos < s.len() && starts_atom(s[pos]) {
        if s[pos] == '(' {
            match parse_expr(s, pos + 1) {
                Ok((e, p)) => if 0 <= p < s.len() && s[p] == ')' {
                    Ok((e, p + 1))
                } else {
                    Err(ParseError::Unclosed(pos as usize))
                },
                Err(e) => Err(e),
            }
        } else {
            Ok((Ast::Char(s[pos]), pos + 1))
        }
    } else {
        Err(err_at(s, pos))
    }
}

/// The tree of a whole pattern, or why it is rejected.
pub open spec fn parse_spec(s: Seq<char>) -> Result<Ast, ParseError> {
    match parse_expr(s, 0) {
        Ok((e, p)) => if p == s.len() { Ok(e) } else { Err(err_at(s, p)) },
        Err(e) => Err(e),
    }
}

pub open spec fn lift(r: Result<(Ast, usize), ParseError>) -> ParseResult {
    match r {
        Ok((a, p)) => Ok((a, p as int)),
        Err(e) => Err(e),
    }
}

fn is_quantifier_exec(c: char) -> (r: bool)
    ensures
        r == is_quantifier(c),
{
    c == '*' || c == '+' || c == '?'
}

fn starts_atom_exec(c: char) -> (r: bool)
    ensures
        r == starts_atom(c),
{
    !is_quantifier_exec(c) && c != '|' && c != ')'
}

fn err_at_exec(s: &Vec<char>, pos: usize) -> (r: ParseError)
    ensures
        r == err_at(s@, pos as int),
{
    if pos < s.len() {
        ParseError::Unexpected(pos)
    } else {
        ParseError::UnexpectedEnd
    }
}

fn expr(s: &Vec<char>, pos: usize) -> (r: Result<(Ast, usize), ParseError>)
    requires
        pos <= s.len(),
    ensures
        lift(r) == parse_expr(s@, pos as int),
    decreases s@.len() - pos, 4int,
{
    match term(s, pos) {
        Ok((t, p)) => if pos < p && p <= s.len() { expr_rest(s, p, t) } else { Err(err_at_exec(s, pos)) },
        Err(e) => Err(e),
    }
}

fn expr_rest(s: &Vec<char>, pos: usize, left: Ast) -> (r: Result<(Ast, usize), ParseError>)
    requires
        pos <= s.len(),
    ensures
        lift(r) == parse_expr_rest(s@, pos as int, left),
    decreases s@.len() - pos, 5int,
{
    if pos < s.len() && s[pos] == '|' {
        match term(s, pos + 1) {
            Ok((t, p)) => if pos < p && p <= s.len() {
                expr_rest(s, p, Ast::Alt(Box::new(left), Box::new(t)))
            } else {
                Err(err_at_exec(s, pos))
            },
            Err(e) => Err(e),
        }
    } else {
        Ok((left, pos))
    }
}

fn term(s: &Vec<char>, pos: usize) -> (r: Result<(Ast, usize), ParseError>)
    requires
        pos <= s.len(),
    ensures
        lift(r) == parse_term(s@, pos as int),
    decreases s@.len() - pos, 3int,
{
    if pos < s.len() && starts_atom_exec(s[pos]) {
        match factor(s, pos) {
            Ok((f, p)) => if pos < p && p <= s.len() { term_rest(s, p, f) } else { Err(err_at_exec(s, pos)) },
            Err(e) => Err(e),
        }
    } else {
        Err(err_at_exec(s, pos))
    }
}

fn term_rest(s: &Vec<char>, pos: usize, left: Ast) -> (r: Result<(Ast, usize), ParseError>)
    requires
        pos <= s.len(),
    ensures
        lift(r) == parse_term_rest(s@, pos as int, left),
    decreases s@.len() - pos, 6int,
{
    if pos < s.len() && starts_atom_exec(s[pos]) {
        match factor(s, pos) {
            Ok((f, p)) => if pos < p && p <= s.len() {
                term_rest(s, p, Ast::Concat(Box::new(left), Box::new(f)))
            } else {
                Err(err_at_exec(s, pos))
            },
            Err(e) => Err(e),
        }
    } else {
        Ok((left, pos))
    }
}

fn factor(s: &Vec<char>, pos: usize) -> (r: Result<(Ast, usize), ParseError>)
    requires
        pos <= s.len(),
    ensures
        lift(r) == parse_factor(s@, pos as int),
        r matches Ok((_, p)) ==> p <= s.len(),
    decreases s@.len() - pos, 2int,
{
    match atom(s, pos) {
        Ok((a, p)) => if p < s.len() && s[p] == '*' {
            Ok((Ast::Star(Box::new(a)), p + 1))
        } else if p < s.len() && s[p] == '+' {
            Ok((Ast::Plus(Box::new(a)), p + 1))
        } else if p < s.len() && s[p] == '?' {
            Ok((Ast::Question(Box::new(a)), p + 1))
        } else {
            Ok((a, p))
        },
        Err(e) => Err(e),
    }
}

fn atom(s: &Vec<char>, pos: usize) -> (r: Result<(Ast, usize), ParseError>)
    requires
        pos <= s.len(),
    ensures
        lift(r) == parse_atom(s@, pos as int),
        r matches Ok((_, p)) ==> p <= s.len(),
    decreases s@.len() - pos, 1int,
{
    if pos < s.len() && starts_atom_exec(s[pos]) {
        if s[pos] == '(' {
            match expr(s, pos + 1) {
                Ok((e, p)) => if p < s.len() && s[p] == ')' {
                    Ok((e, p + 1))
                } else {
                    Err(ParseError::Unclosed(pos))
                },
                Err(e) => Err(e),
            }
        } else {
            Ok((Ast::Char(s[pos]), pos + 1))
        }
    } else {
        Err(err_at_exec(s, pos))
    }
}

/// Parses a whole pattern.
pub fn parse(pattern: &Vec<char>) -> (r: Result<Ast, ParseError>)
    ensures
        r == parse_spec(pattern@),
{
    match expr(pattern, 0) {
        Ok((e, p)) => if p == pattern.len() { Ok(e) } else { Err(err_at_exec(pattern, p)) },
        Err(e) => Err(e),
    }
}

} // verus!
