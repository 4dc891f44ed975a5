//! Execution of a compiled program against an input.
//!
//! A thread is a pair (program counter, input position). Both strategies
//! explore the threads reachable from (0, 0), each at most once: depth-first
//! keeps a stack and tries the first branch of a `Split` before the second,
//! breadth-first keeps a queue and so advances all threads in step.
use vstd::prelude::*;
use vstd::set_lib::*;
use crate::codegen::{Instruction, valid_program};

verus! {

/// One move of a thread from `s` to `t`.
pub open spec fn step(prog: Seq<Instruction>, input: Seq<char>, s: (int, int), t: (int, int)) -> bool {
    0 <= s.0 < prog.len() && 0 <= s.1 <= input.len() && match prog[s.0] {
        Instruction::Char(c) => s.1 < input.len() && input[s.1] == c && t == (s.0 + 1, s.1 + 1),
        Instruction::Match => false,
        Instruction::Jump(a) => t == (a as int, s.1),
        Instruction::Split(a, b) => t == (a as int, s.1) || t == (b as int, s.1),
    }
}

/// `t` can be reached from (0, 0) in at most `k` moves.
pub open spec fn reachable(prog: Seq<Instruction>, input: Seq<char>, k: nat, t: (int, int)) -> bool
    decreases k,
{
    if k == 0 {
        t == (0int, 0int)
    } else {
        reachable(prog, input, (k - 1) as nat, t) || exists|s: (int, int)|
            reachable(prog, input, (k - 1) as nat, s) && #[trigger] step(prog, input, s, t)
    }
}

pub open spec fn is_reachable(prog: Seq<Instruction>, input: Seq<char>, t: (int, int)) -> bool {
    exists|k: nat| reachable(prog, input, k, t)
}

/// A thread that stands on `Match` with the whole input consumed.
pub open spec fn accepting(prog: Seq<Instruction>, input: Seq<char>, s: (int, int)) -> bool {
    0 <= s.0 < prog.len() && prog[s.0] == Instruction::Match && s.1 == input.len()
}

/// The program accepts the input exactly: some thread reaches `Match`
/// after consuming every character.
pub open spec fn accepts(prog: Seq<Instruction>, input: Seq<char>) -> bool {
    exists|t: (int, int)| #[trigger] is_reachable(prog, input, t) && accepting(prog, input, t)
}

/// Why a program could not be run.
#[derive(Debug, Clone, Copy, PartialEq, Eq)]
pub enum EvalError {
    /// The instruction at this address jumps outside the program.
    InvalidTarget(usize),
}

spec fn seen(v: Seq<Vec<bool>>, pc: int, sp: int) -> bool {
    v[sp]@[pc]
}

spec fn pending(work: Seq<(usize, usize)>, head: int, t: (int, int)) -> bool {
    exists|i: int| head <= i < work.len() && (#[trigger] work[i]).0 as int == t.0 && work[i].1 as int == t.1
}

/// Every move out of a visited thread leads to a visited or a pending one.
spec fn closed(
    prog: Seq<Instruction>,
    input: Seq<char>,
    v: Seq<Vec<bool>>,
    work: Seq<(usize, usize)>,
    head: int,
) -> bool {
    forall|pc: int, sp: int, t: (int, int)|
        0 <= pc < prog.len() && 0 <= sp <= input.len() && #[trigger] seen(v, pc, sp)
            && #[trigger] step(prog, input, (pc, sp), t) && t.0 < prog.len() ==> seen(v, t.0, t.1)
            || pending(work, head, t)
}

proof fn lemma_step_bounds(prog: Seq<Instruction>, input: Seq<char>, s: (int, int), t: (int, int))
    requires
        step(prog, input, s, t),
    ensures
        0 <= t.0,
        0 <= t.1 <= input.len(),
{
}

proof fn lemma_reach_next(prog: Seq<Instruction>, input: Seq<char>, s: (int, int), t: (int, int))
    requires
        is_reachable(prog, input, s),
        step(prog, input, s, t),
    ensures
        is_reachable(prog, input, t),
{
    let k = choose|k: nat| reachable(prog, input, k, s);
    assert(reachable(prog, input, k + 1, t));
}

/// Once nothing is pending, every reachable thread in range has been visited.
proof fn lemma_reach_closed(
    prog: Seq<Instruction>,
    input: Seq<char>,
    v: Seq<Vec<bool>>,
    work: Seq<(usize, usize)>,
    k: nat,
    t: (int, int),
)
    requires
        prog.len() > 0,
        v.len() == input.len() + 1,
        forall|r: int| 0 <= r <= input.len() ==> (#[trigger] v[r])@.len() == prog.len(),
        seen(v, 0, 0),
        closed(prog, input, v, work, work.len() as int),
        reachable(prog, input, k, t),
        t.0 < prog.len(),
    ensures
        0 <= t.0,
        0 <= t.1 <= input.len(),
        seen(v, t.0, t.1),
    decreases k,
{
    if k == 0 {
    } else if reachable(prog, input, (k - 1) as nat, t) {
        lemma_reach_closed(prog, input, v, work, (k - 1) as nat, t);
    } else {
        let s = choose|s: (int, int)| reachable(prog, input, (k - 1) as nat, s) && #[trigger] step(prog, input, s, t);
        lemma_step_bounds(prog, input, s, t);
        lemma_reach_closed(prog, input, v, work, (k - 1) as nat, s);
        assert(seen(v, s.0, s.1));
        assert(!pending(work, work.len() as int, t));
    }
}

proof fn lemma_encode(n: int, len: int, pc: int, sp: int)
    requires
        0 <= pc < n,
        0 <= sp <= len,
    ensures
        0 <= sp * n + pc < n * (len + 1),
{
    assert(0 <= sp * n) by (nonlinear_arith)
        requires 0 <= sp, 0 <= n;
    assert(sp * n + n <= n * (len + 1)) by (nonlinear_arith)
        requires sp <= len, 0 <= n;
}

proof fn lemma_encode_injective(n: int, pc1: int, sp1: int, pc2: int, sp2: int)
    requires
        0 <= pc1 < n,
        0 <= pc2 < n,
        0 <= sp1,
        0 <= sp2,
        sp1 * n + pc1 == sp2 * n + pc2,
    ensures
        pc1 == pc2,
        sp1 == sp2,
{
    if sp1 < sp2 {
        assert(sp1 * n + n <= sp2 * n) by (nonlinear_arith)
            requires sp1 < sp2, 0 <= n;
    } else if sp2 < sp1 {
        assert(sp2 * n + n <= sp1 * n) by (nonlinear_arith)
            requires sp2 < sp1, 0 <= n;
    }
}

fn falses(n: usize) -> (r: Vec<bool>)
    ensures
        r@.len() == n,
        forall|i: int| 0 <= i < n ==> !r@[i],
{
    let mut r: Vec<bool> = Vec::new();
    let mut i: usize = 0;
    while i < n
        invariant
            i <= n,
            r@.len() == i,
            forall|j: int| 0 <= j < i ==> !r@[j],
        decreases n - i,
    {
        r.push(false);
        i += 1;
    }
    r
}

/// The jump targets of `i` are below `n`.
pub open spec fn jumps_below(i: Instruction, n: int) -> bool {
    match i {
        Instruction::Jump(a) => a < n,
        Instruction::Split(a, b) => a < n && b < n,
        _ => true,
    }
}

/// The first address of `prog` whose instruction jumps outside it is `i`.
pub open spec fn first_invalid(prog: Seq<Instruction>, i: int) -> bool {
    0 <= i < prog.len() && !jumps_below(prog[i], prog.len() as int) && forall|j: int|
        0 <= j < i ==> jumps_below(#[trigger] prog[j], prog.len() as int)
}

/// Address of the first instruction that jumps outside `prog`, if any.
pub fn find_invalid_target(prog: &Vec<Instruction>) -> (r: Option<usize>)
    ensures
        r is None <==> valid_program(prog@),
        r matches Some(i) ==> first_invalid(prog@, i as int),
{
    let n = prog.len();
    let mut i: usize = 0;
    while i < n
        invariant
            n == prog@.len(),
            i <= n,
            forall|j: int| 0 <= j < i ==> match #[trigger] prog@[j] {
                Instruction::Jump(a) => a < n,
                Instruction::Split(a, b) => a < n && b < n,
                _ => true,
            },
        decreases n - i,
    {
        let bad = match prog[i] {
            Instruction::Jump(a) => a >= n,
            Instruction::Split(a, b) => a >= n || b >= n,
            _ => false,
        };
        if bad {
            return Some(i);
        }
        i += 1;
    }
    None
}

/// Explores every thread reachable from (0, 0), each once.
#[verifier::rlimit(60)]
fn search(prog: &Vec<Instruction>, input: &Vec<char>, depth_first: bool) -> (r: bool)
    requires
        valid_program(prog@),
        prog@.len() > 0,
    ensures
        r == accepts(prog@, input@),
{
    let n = prog.len();
    let len = input.len();
    let mut visited: Vec<Vec<bool>> = Vec::new();
    visited.push(falses(n));
    let mut i: usize = 0;
    while i < len
        invariant
            n == prog@.len(),
            i <= len,
            visited@.len() == i + 1,
            forall|r: int| 0 <= r <= i ==> (#[trigger] visited@[r])@.len() == n,
            forall|r: int, c: int| 0 <= r <= i && 0 <= c < n ==> !seen(visited@, c, r),
        decreases len - i,
    {
        let ghost prev = visited@;
        visited.push(falses(n));
        i += 1;
        assert forall|r: int, c: int| 0 <= r <= i && 0 <= c < n implies !seen(visited@, c, r) by {
            if r < i {
                assert(visited@[r] == prev[r]);
                assert(!seen(prev, c, r));
            }
        }
    }
    let ghost big: int = n * (len + 1);
    let ghost mut done: Set<int> = Set::empty();
    let mut work: Vec<(usize, usize)> = Vec::new();
    work.push((0, 0));
    let mut head: usize = 0;
    proof {
        assert(0 <= big) by (nonlinear_arith)
            requires big == n * (len + 1), 0 <= n, 0 <= len;
        lemma_int_range(0, big);
        assert(pending(work@, 0, (0, 0))) by { assert(work@[0] == (0usize, 0usize)); }
        assert(reachable(prog@, input@, 0, (0, 0)));
    }
    while head < work.len()
        invariant
            valid_program(prog@),
            n == prog@.len(),
            n > 0,
            len == input@.len(),
            big == n * (len + 1),
            set_int_range(0, big).finite(),
            set_int_range(0, big).len() == big,
            visited@.len() == len + 1,
            forall|r: int| 0 <= r <= len ==> (#[trigger] visited@[r])@.len() == n,
            head <= work@.len(),
            forall|i: int| head <= i < work@.len() ==> (#[trigger] work@[i]).0 < n && work@[i].1 <= len
                && is_reachable(prog@, input@, (work@[i].0 as int, work@[i].1 as int)),
            forall|pc: int, sp: int| 0 <= pc < n && 0 <= sp <= len && #[trigger] seen(visited@, pc, sp)
                ==> is_reachable(prog@, input@, (pc, sp)) && !accepting(prog@, input@, (pc, sp)),
            closed(prog@, input@, visited@, work@, head as int),
            seen(visited@, 0, 0) || pending(work@, head as int, (0, 0)),
            done.finite(),
            done.subset_of(set_int_range(0, big)),
            forall|pc: int, sp: int| 0 <= pc < n && 0 <= sp <= len ==> (#[trigger] seen(visited@, pc, sp)
                <==> done.contains(sp * n + pc)),
        decreases 3 * (big - done.len()) + work@.len() - head,
    {
        proof { lemma_len_subset(done, set_int_range(0, big)); }
        let ghost old_work = work@;
        let ghost old_head = head as int;
        let (pc, sp) = if depth_first {
            let last = work.len() - 1;
            let x = work[last];
            work.pop();
            x
        } else {
            let x = work[head];
            head += 1;
            x
        };
        let ghost st = (pc as int, sp as int);
        assert(is_reachable(prog@, input@, st) && pc < n && sp <= len);
        assert(0 <= big - done.len());
        assert forall|t: (int, int)| pending(old_work, old_head, t) implies pending(work@, head as int, t)
            || t == st by {
            let j = choose|j: int| old_head <= j < old_work.len() && (#[trigger] old_work[j]).0 as int == t.0 && old_work[j].1 as int == t.1;
            if head as int <= j < work@.len() {
                assert(work@[j] == old_work[j]);
            }
        }
        if !visited[sp][pc] {
            if matches!(prog[pc], Instruction::Match) && sp == len {
                assert(accepting(prog@, input@, st));
                assert(is_reachable(prog@, input@, st));
                return true;
            }
            let ghost before = visited@;
            let ghost wmid = work@;
            visited[sp][pc] = true;
            proof {
                lemma_encode(n as int, len as int, pc as int, sp as int);
                let ghost old_done = done;
                assert(!seen(before, pc as int, sp as int));
                assert(!old_done.contains(sp * n + pc));
                done = done.insert(sp * n + pc);
                lemma_len_subset(done, set_int_range(0, big));
                assert forall|p2: int, s2: int| 0 <= p2 < n && 0 <= s2 <= len implies (#[trigger] seen(visited@, p2, s2)
                    <==> done.contains(s2 * n + p2)) by {
                    assert(seen(before, p2, s2) <==> old_done.contains(s2 * n + p2));
                    if s2 * n + p2 == sp * n + pc {
                        lemma_encode_injective(n as int, p2, s2, pc as int, sp as int);
                    }
                    if s2 != sp as int {
                        assert(visited@[s2] == before[s2]);
                    } else {
                        assert(visited@[s2]@ == before[s2]@.update(pc as int, true));
                    }
                }
                assert forall|p2: int, s2: int| 0 <= p2 < n && 0 <= s2 <= len && (p2, s2) != st implies
                    seen(visited@, p2, s2) == #[trigger] seen(before, p2, s2) by {
                    if s2 != sp as int {
                        assert(visited@[s2] == before[s2]);
                    }
                }
            }
            match prog[pc] {
                Instruction::Char(c) => {
                    if sp < len && input[sp] == c && pc + 1 < n {
                        work.push((pc + 1, sp + 1));
                    }
                },
                Instruction::Match => {},
                Instruction::Jump(a) => {
                    work.push((a, sp));
                },
                Instruction::Split(a, b) => {
                    if depth_first {
                        work.push((b, sp));
                        work.push((a, sp));
                    } else {
                        work.push((a, sp));
                        work.push((b, sp));
                    }
                },
            }
            proof {
                assert forall|i: int| head <= i < wmid.len() implies work@[i] == wmid[i] by {}
                assert forall|t: (int, int)| pending(wmid, head as int, t) implies pending(work@, head as int, t) by {
                    let j = choose|j: int| head <= j < wmid.len() && (#[trigger] wmid[j]).0 as int == t.0 && wmid[j].1 as int == t.1;
                    assert(work@[j] == wmid[j]);
                }
                assert forall|t: (int, int)| step(prog@, input@, st, t) && t.0 < n implies pending(work@, head as int, t) by {
                    lemma_step_bounds(prog@, input@, st, t);
                    let w = work@.len() - 1;
                    match prog@[pc as int] {
                        Instruction::Split(a, b) => {
                            assert(work@[w].0 as int == t.0 && work@[w].1 as int == t.1
                                || work@[w - 1].0 as int == t.0 && work@[w - 1].1 as int == t.1);
                        },
                        _ => {
                            assert(work@[w].0 as int == t.0 && work@[w].1 as int == t.1);
                        },
                    }
                }
                assert forall|i: int| head <= i < work@.len() implies (#[trigger] work@[i]).0 < n && work@[i].1 <= len
                    && is_reachable(prog@, input@, (work@[i].0 as int, work@[i].1 as int)) by {
                    if i >= wmid.len() {
                        let t = (work@[i].0 as int, work@[i].1 as int);
                        assert(step(prog@, input@, st, t));
                        lemma_reach_next(prog@, input@, st, t);
                    } else {
                        assert(work@[i] == wmid[i]);
                    }
                }
                assert(closed(prog@, input@, visited@, work@, head as int)) by {
                    assert forall|p2: int, s2: int, t: (int, int)|
                        0 <= p2 < n && 0 <= s2 <= len && #[trigger] seen(visited@, p2, s2)
                        && #[trigger] step(prog@, input@, (p2, s2), t) && t.0 < n implies seen(visited@, t.0, t.1)
                        || pending(work@, head as int, t) by {
                        lemma_step_bounds(prog@, input@, (p2, s2), t);
                        if (p2, s2) != st {
                            assert(seen(before, p2, s2));
                            assert(seen(before, t.0, t.1) || pending(old_work, old_head, t));
                            if t != st && seen(before, t.0, t.1) {
                                assert(seen(visited@, t.0, t.1));
                            }
                        }
                    }
                }
                if !seen(visited@, 0, 0) {
                    assert(seen(before, 0, 0) == seen(visited@, 0, 0));
                }
                assert forall|p2: int, s2: int| 0 <= p2 < n && 0 <= s2 <= len && #[trigger] seen(visited@, p2, s2)
                    implies is_reachable(prog@, input@, (p2, s2)) && !accepting(prog@, input@, (p2, s2)) by {
                    if (p2, s2) != st {
                        assert(seen(before, p2, s2));
                    }
                }
            }
        }
    }
    proof {
        assert(!pending(work@, head as int, (0, 0)));
        if accepts(prog@, input@) {
            let t = choose|t: (int, int)| #[trigger] is_reachable(prog@, input@, t) && accepting(prog@, input@, t);
            let k = choose|k: nat| reachable(prog@, input@, k, t);
            lemma_reach_closed(prog@, input@, visited@, work@, k, t);
        }
    }
    false
}

/// Runs `prog` on `input`, depth-first or breadth-first.
pub fn eval(prog: &Vec<Instruction>, input: &Vec<char>, depth_first: bool) -> (r: Result<bool, EvalError>)
    ensures
        r is Err <==> !valid_program(prog@),
        r matches Ok(b) ==> b == accepts(prog@, input@),
        r matches Err(EvalError::InvalidTarget(i)) ==> first_invalid(prog@, i as int),
{
    match find_invalid_target(prog) {
        Some(i) => Err(EvalError::InvalidTarget(i)),
        None => if prog.len() == 0 {
            Ok(false)
        } else {
            Ok(search(prog, input, depth_first))
        },
    }
}

} // verus!
