//! Compilation of a syntax tree into a flat program with absolute addresses.
use vstd::prelude::*;
use crate::parser::Ast;

verus! {

/// One instruction of a compiled program.
#[derive(Debug, Clone, Copy, PartialEq, Eq)]
pub enum Instruction {
    /// Consume one input character equal to the given one.
    Char(char),
    /// Accept.
    Match,
    /// Continue at the given address.
    Jump(usize),
    /// Continue at both addresses.
    Split(usize, usize),
}

/// Number of instructions that the block of `a` occupies.
pub open spec fn code_len(a: Ast) -> nat
    decreases a,
{
    match a {
        Ast::Char(_) => 1,
        Ast::Concat(l, r) => code_len(*l) + code_len(*r),
        Ast::Alt(l, r) => code_len(*l) + code_len(*r) + 2,
        Ast::Star(e) => code_len(*e) + 2,
        Ast::Plus(e) => code_len(*e) + 1,
        Ast::Question(e) => code_len(*e) + 1,
    }
}

/// The block of instructions for `a` when it starts at address `start`.
pub open spec fn code_of(a: Ast, start: int) -> Seq<Instruction>
    decreases a,
{
    match a {
        Ast::Char(c) => seq![Instruction::Char(c)],
        Ast::Concat(l, r) => code_of(*l, start) + code_of(*r, start + code_len(*l)),
        Ast::Alt(l, r) => {
            let mid = start + 2 + code_len(*l);
            let end = mid + code_len(*r);
            seq![Instruction::Split((start + 1) as usize, mid as usize)] + code_of(*l, start + 1)
                + seq![Instruction::Jump(end as usize)] + code_of(*r, mid)
        },
        Ast::Star(e) => {
            let end = start + 2 + code_len(*e);
            seq![Instruction::Split((start + 1) as usize, end as usize)] + code_of(*e, start + 1)
                + seq![Instruction::Jump(start as usize)]
        },
        Ast::Plus(e) => {
            let end = start + 1 + code_len(*e);
            code_of(*e, start) + seq![Instruction::Split(start as usize, end as usize)]
        },
        Ast::Question(e) => {
            let end = start + 1 + code_len(*e);
            seq![Instruction::Split((start + 1) as usize, end as usize)] + code_of(*e, start + 1)
        },
    }
}

/// The program for a whole tree: its block at address 0, then `Match`.
pub open spec fn compile(a: Ast) -> Seq<Instruction> {
    code_of(a, 0).push(Instruction::Match)
}

/// Every `Jump` and `Split` of `code` targets an address below `n`.
pub open spec fn targets_below(code: Seq<Instruction>, n: int) -> bool {
    forall|i: int|
        0 <= i < code.len() ==> match #[trigger] code[i] {
            Instruction::Jump(a) => a < n,
            Instruction::Split(a, b) => a < n && b < n,
            _ => true,
        }
}

/// Every jump target of `code` is an address of `code`.
pub open spec fn valid_program(code: Seq<Instruction>) -> bool {
    targets_below(code, code.len() as int)
}

pub proof fn lemma_code_len(a: Ast, start: int)
    ensures
        code_of(a, start).len() == code_len(a),
    decreases a,
{
    match a {
        Ast::Char(_) => {},
        Ast::Concat(l, r) => {
            lemma_code_len(*l, start);
            lemma_code_len(*r, start + code_len(*l));
        },
        Ast::Alt(l, r) => {
            lemma_code_len(*l, start + 1);
            lemma_code_len(*r, start + 2 + code_len(*l));
        },
        Ast::Star(e) => lemma_code_len(*e, start + 1),
        Ast::Plus(e) => lemma_code_len(*e, start),
        Ast::Question(e) => lemma_code_len(*e, start + 1),
    }
}

/// Every target in the block of `a` lies within the block or just past it.
proof fn lemma_targets(a: Ast, start: int)
    requires
        0 <= start,
        start + code_len(a) <= usize::MAX,
    ensures
        targets_below(code_of(a, start), start + code_len(a) + 1),
    decreases a,
{
    lemma_code_len(a, start);
    let n = start + code_len(a) + 1;
    match a {
        Ast::Char(_) => {},
        Ast::Concat(l, r) => {
            let cl = code_of(*l, start);
            let cr = code_of(*r, start + code_len(*l));
            lemma_targets(*l, start);
            lemma_targets(*r, start + code_len(*l));
            lemma_code_len(*l, start);
            assert forall|i: int| 0 <= i < cl.len() + cr.len() implies match #[trigger] (cl + cr)[i] {
                Instruction::Jump(t) => t < n,
                Instruction::Split(t, u) => t < n && u < n,
                _ => true,
            } by {
                if i < cl.len() {
                    assert((cl + cr)[i] == cl[i]);
                } else {
                    assert((cl + cr)[i] == cr[i - cl.len()]);
                }
            }
        },
        Ast::Alt(l, r) => {
            let mid = start + 2 + code_len(*l);
            let end = mid + code_len(*r);
            let s1 = seq![Instruction::Split((start + 1) as usize, mid as usize)];
            let cl = code_of(*l, start + 1);
            let s2 = seq![Instruction::Jump(end as usize)];
            let cr = code_of(*r, mid);
            lemma_targets(*l, start + 1);
            lemma_targets(*r, mid);
            lemma_code_len(*l, start + 1);
            lemma_code_len(*r, mid);
            let all = s1 + cl + s2 + cr;
            assert forall|i: int| 0 <= i < all.len() implies match #[trigger] all[i] {
                Instruction::Jump(t) => t < n,
                Instruction::Split(t, u) => t < n && u < n,
                _ => true,
            } by {
                if i == 0 {
                    assert(all[i] == s1[0]);
                } else if i < 1 + cl.len() {
                    assert(all[i] == cl[i - 1]);
                } else if i == 1 + cl.len() {
                    assert(all[i] == s2[0]);
                } else {
                    assert(all[i] == cr[i - 2 - cl.len()]);
                }
            }
        },
        Ast::Star(e) => {
            let end = start + 2 + code_len(*e);
            let s1 = seq![Instruction::Split((start + 1) as usize, end as usize)];
            let ce = code_of(*e, start + 1);
            let s2 = seq![Instruction::Jump(start as usize)];
            lemma_targets(*e, start + 1);
            lemma_code_len(*e, start + 1);
            let all = s1 + ce + s2;
            assert forall|i: int| 0 <= i < all.len() implies match #[trigger] all[i] {
                Instruction::Jump(t) => t < n,
                Instruction::Split(t, u) => t < n && u < n,
                _ => true,
            } by {
                if i == 0 {
                    assert(all[i] == s1[0]);
                } else if i < 1 + ce.len() {
                    assert(all[i] == ce[i - 1]);
                } else {
                    assert(all[i] == s2[0]);
                }
            }
        },
        Ast::Plus(e) => {
            let end = start + 1 + code_len(*e);
            let ce = code_of(*e, start);
            let s1 = seq![Instruction::Split(start as usize, end as usize)];
            lemma_targets(*e, start);
            lemma_code_len(*e, start);
            let all = ce + s1;
            assert forall|i: int| 0 <= i < all.len() implies match #[trigger] all[i] {
                Instruction::Jump(t) => t < n,
                Instruction::Split(t, u) => t < n && u < n,
                _ => true,
            } by {
                if i < ce.len() {
                    assert(all[i] == ce[i]);
                } else {
                    assert(all[i] == s1[0]);
                }
            }
        },
        Ast::Question(e) => {
            let end = start + 1 + code_len(*e);
            let s1 = seq![Instruction::Split((start + 1) as usize, end as usize)];
            let ce = code_of(*e, start + 1);
            lemma_targets(*e, start + 1);
            lemma_code_len(*e, start + 1);
            let all = s1 + ce;
            assert forall|i: int| 0 <= i < all.len() implies match #[trigger] all[i] {
                Instruction::Jump(t) => t < n,
                Instruction::Split(t, u) => t < n && u < n,
                _ => true,
            } by {
                if i == 0 {
                    assert(all[i] == s1[0]);
                } else {
                    assert(all[i] == ce[i - 1]);
                }
            }
        },
    }
}

/// Every address in every `Jump` and `Split` of a compiled program is an
/// address of that program.
pub proof fn lemma_compile_valid(a: Ast)
    requires
        code_len(a) < usize::MAX,
    ensures
        valid_program(compile(a)),
        compile(a).len() == code_len(a) + 1,
{
    lemma_targets(a, 0);
    lemma_code_len(a, 0);
    let c = code_of(a, 0);
    let p = compile(a);
    assert forall|i: int| 0 <= i < p.len() implies match #[trigger] p[i] {
        Instruction::Jump(t) => t < p.len(),
        Instruction::Split(t, u) => t < p.len() && u < p.len(),
        _ => true,
    } by {
        if i < c.len() {
            assert(p[i] == c[i]);
        }
    }
}

/// Compiling one tree twice gives the same program, address for address.
pub proof fn lemma_compile_deterministic(a: Ast, b: Ast)
    requires
        a == b,
    ensures
        compile(a) == compile(b),
{
}

/// Size of the program for `a`, unless it does not fit in the address space.
pub fn program_size(a: &Ast) -> (r: Option<usize>)
    ensures
        r matches Some(n) ==> n == code_len(*a) + 1,
        r is None ==> code_len(*a) + 1 > usize::MAX,
    decreases a,
{
    match a {
        Ast::Char(_) => Some(2),
        Ast::Concat(l, r) => {
            let x = program_size(l)?;
            let y = program_size(r)?;
            x.checked_add(y - 1)
        },
        Ast::Alt(l, r) => {
            let x = program_size(l)?;
            let y = program_size(r)?;
            x.checked_add(y)?.checked_add(1)
        },
        Ast::Star(e) => program_size(e)?.checked_add(2),
        Ast::Plus(e) | Ast::Question(e) => program_size(e)?.checked_add(1),
    }
}

/// Appends the block of `a` to `code`.
fn emit(a: &Ast, code: &mut Vec<Instruction>)
    requires
        old(code)@.len() + code_len(*a) < usize::MAX,
    ensures
        final(code)@ == old(code)@ + code_of(*a, old(code)@.len() as int),
    decreases a,
{
    let ghost start = code@.len() as int;
    proof { lemma_code_len(*a, start); }
    match a {
        Ast::Char(c) => {
            code.push(Instruction::Char(*c));
            assert(code@ =~= old(code)@ + code_of(*a, start));
        },
        Ast::Concat(l, r) => {
            emit(l, code);
            proof { lemma_code_len(**l, start); }
            emit(r, code);
            assert(code@ =~= old(code)@ + code_of(*a, start));
        },
        Ast::Alt(l, r) => {
            let head = code.len();
            code.push(Instruction::Split(head + 1, 0));
            emit(l, code);
            proof { lemma_code_len(**l, start + 1); }
            let jump = code.len();
            code.push(Instruction::Jump(0));
            let mid = code.len();
            emit(r, code);
            proof { lemma_code_len(**r, mid as int); }
            let end = code.len();
            code[head] = Instruction::Split(head + 1, mid);
            code[jump] = Instruction::Jump(end);
            assert(code@ =~= old(code)@ + code_of(*a, start));
        },
        Ast::Star(e) => {
            let head = code.len();
            code.push(Instruction::Split(head + 1, 0));
            emit(e, code);
            proof { lemma_code_len(**e, start + 1); }
            code.push(Instruction::Jump(head));
            let end = code.len();
            code[head] = Instruction::Split(head + 1, end);
            assert(code@ =~= old(code)@ + code_of(*a, start));
        },
        Ast::Plus(e) => {
            let head = code.len();
            emit(e, code);
            proof { lemma_code_len(**e, start); }
            let end = code.len() + 1;
            code.push(Instruction::Split(head, end));
            assert(code@ =~= old(code)@ + code_of(*a, start));
        },
        Ast::Question(e) => {
            let head = code.len();
            code.push(Instruction::Split(head + 1, 0));
            emit(e, code);
            proof { lemma_code_len(**e, start + 1); }
            let end = code.len();
            code[head] = Instruction::Split(head + 1, end);
            assert(code@ =~= old(code)@ + code_of(*a, start));
        },
    }
}

/// Why a tree could not be compiled.
#[derive(Debug, Clone, Copy, PartialEq, Eq)]
pub enum CodegenError {
    /// The program would have more instructions than the address space holds.
    TooLarge,
}

/// Compiles a tree into a program ending in `Match`.
pub fn get_code(a: &Ast) -> (r: Result<Vec<Instruction>, CodegenError>)
    ensures
        r matches Ok(code) ==> code@ == compile(*a) && valid_program(code@),
        r is Err <==> code_len(*a) + 1 > usize::MAX,
{
    match program_size(a) {
        None => Err(CodegenError::TooLarge),
        Some(_) => {
            let mut code: Vec<Instruction> = Vec::new();
            emit(a, &mut code);
            code.push(Instruction::Match);
            proof {
                lemma_compile_valid(*a);
                assert(code@ =~= compile(*a));
            }
            Ok(code)
        },
    }
}

} // verus!
