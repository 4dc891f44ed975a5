//! Text form of instructions: `char X`, `match`, `jump NNNN`,
//! `split NNNN NNNN`, with addresses written in at least four digits.
use vstd::prelude::*;
use crate::codegen::Instruction;

verus! {

pub open spec fn digit(d: int) -> char {
    if d == 0 { '0' } else if d == 1 { '1' } else if d == 2 { '2' } else if d == 3 { '3' }
    else if d == 4 { '4' } else if d == 5 { '5' } else if d == 6 { '6' } else if d == 7 { '7' }
    else if d == 8 { '8' } else { '9' }
}

/// Decimal digits of `n`, most significant first, without leading zeros.
pub open spec fn decimal(n: nat) -> Seq<char>
    decreases n,
{
    if n < 10 {
        seq![digit(n as int)]
    } else {
        decimal(n / 10).push(digit((n % 10) as int))
    }
}

/// `n` in decimal, padded on the left with zeros to four digits.
pub open spec fn address(n: nat) -> Seq<char> {
    let zeros: Seq<char> = if n < 10 {
        seq!['0', '0', '0']
    } else if n < 100 {
        seq!['0', '0']
    } else if n < 1000 {
        seq!['0']
    } else {
        seq![]
    };
    zeros + decimal(n)
}

/// The text of one instruction.
pub open spec fn text_of(i: Instruction) -> Seq<char> {
    match i {
        Instruction::Char(c) => seq!['c', 'h', 'a', 'r', ' ', c],
        Instruction::Match => seq!['m', 'a', 't', 'c', 'h'],
        Instruction::Jump(a) => seq!['j', 'u', 'm', 'p', ' '] + address(a as nat),
        Instruction::Split(a, b) => seq!['s', 'p', 'l', 'i', 't', ' '] + address(a as nat) + seq![' ']
            + address(b as nat),
    }
}

/// Relies on `String::push`: appends one character.
#[verifier::external_body]
fn push_char(s: &mut String, c: char)
    ensures
        final(s)@ == old(s)@.push(c),
{
    s.push(c)
}

fn digit_exec(d: usize) -> (c: char)
    requires
        d < 10,
    ensures
        c == digit(d as int),
{
    match d {
        0 => '0',
        1 => '1',
        2 => '2',
        3 => '3',
        4 => '4',
        5 => '5',
        6 => '6',
        7 => '7',
        8 => '8',
        _ => '9',
    }
}

fn push_decimal(s: &mut String, n: usize)
    ensures
        final(s)@ == old(s)@ + decimal(n as nat),
    decreases n,
{
    if n >= 10 {
        push_decimal(s, n / 10);
    }
    push_char(s, digit_exec(n % 10));
    assert(s@ =~= old(s)@ + decimal(n as nat));
}

fn push_address(s: &mut String, n: usize)
    ensures
        final(s)@ == old(s)@ + address(n as nat),
{
    let ghost start = s@;
    if n < 10 {
        push_char(s, '0');
        push_char(s, '0');
        push_char(s, '0');
    } else if n < 100 {
        push_char(s, '0');
        push_char(s, '0');
    } else if n < 1000 {
        push_char(s, '0');
    }
    push_decimal(s, n);
    assert(s@ =~= start + address(n as nat));
}

fn push_word(s: &mut String, w: &str)
    ensures
        final(s)@ == old(s)@ + w@,
{
    s.append(w);
}

impl Instruction {
    /// The text of this instruction, e.g. `split 0001 0003`.
    pub fn to_string(&self) -> (r: String)
        ensures
            r@ == text_of(*self),
    {
        let mut s = String::new();
        match *self {
            Instruction::Char(c) => {
                proof { reveal_strlit("char "); }
                push_word(&mut s, "char ");
                push_char(&mut s, c);
            },
            Instruction::Match => {
                proof { reveal_strlit("match"); }
                push_word(&mut s, "match");
            },
            Instruction::Jump(a) => {
                proof { reveal_strlit("jump "); }
                push_word(&mut s, "jump ");
                push_address(&mut s, a);
            },
            Instruction::Split(a, b) => {
                proof { reveal_strlit("split "); }
                push_word(&mut s, "split ");
                push_address(&mut s, a);
                push_char(&mut s, ' ');
                push_address(&mut s, b);
            },
        }
        assert(s@ =~= text_of(*self));
        s
    }
}

} // verus!
