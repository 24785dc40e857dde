//! Operands: a token of decimal digits is an immediate, any other a register name.

use crate::text::to_chars;
use vstd::prelude::*;

verus! {

/// The largest number that an immediate operand may denote.
pub const LITERAL_MAX: u32 = 0x7fff_ffff;

/// Whether `c` is one of the decimal digits `0` to `9`.
pub open spec fn is_digit(c: char) -> bool {
    '0' <= c && c <= '9'
}

/// Whether every character of `tok` is a decimal digit. The empty token counts as
/// a number without digits.
pub open spec fn is_number(tok: Seq<char>) -> bool {
    forall|i: int| 0 <= i < tok.len() ==> is_digit(#[trigger] tok[i])
}

/// The number that a string of decimal digits denotes. The empty string denotes 0.
pub open spec fn decimal_value(tok: Seq<char>) -> nat
    decreases tok.len(),
{
    if tok.len() == 0 {
        0
    } else {
        10 * decimal_value(tok.drop_last()) + (tok.last() as u32 - '0' as u32) as nat
    }
}

/// The value of the immediate operand `tok`: what its digits denote, provided that
/// it has a digit, has nothing but digits, and denotes no more than `LITERAL_MAX`.
pub open spec fn literal_value(tok: Seq<char>) -> Option<nat> {
    if tok.len() > 0 && is_number(tok) && decimal_value(tok) <= LITERAL_MAX {
        Some(decimal_value(tok))
    } else {
        None
    }
}

/// Whether `tok` is an immediate operand rather than a register name.
pub fn is_numeric(tok: &str) -> (b: bool)
    ensures
        b == is_number(tok@),
{
    let cs = to_chars(tok);
    let mut i: usize = 0;
    while i < cs.len()
        invariant
            i <= cs.len(),
            cs@ == tok@,
            forall|j: int| 0 <= j < i ==> is_digit(#[trigger] cs@[j]),
        decreases cs.len() - i,
    {
        let c = cs[i];
        if !('0' <= c && c <= '9') {
            return false;
        }
        i += 1;
    }
    true
}

/// Reads an immediate operand.
pub fn parse_literal(tok: &str) -> (r: Option<u32>)
    ensures
        match r {
            Some(v) => literal_value(tok@) == Some(v as nat),
            None => literal_value(tok@) is None,
        },
{
    let cs = to_chars(tok);
    let n = cs.len();
    if n == 0 {
        return None;
    }
    let mut acc: u64 = 0;
    let mut over = false;
    let mut i: usize = 0;
    proof {
        assert(cs@.take(0) =~= Seq::<char>::empty());
    }
    while i < n
        invariant
            i <= n,
            n == cs.len(),
            cs@ == tok@,
            is_number(cs@.take(i as int)),
            !over ==> acc == decimal_value(cs@.take(i as int)),
            !over ==> acc <= LITERAL_MAX,
            over ==> decimal_value(cs@.take(i as int)) > LITERAL_MAX,
        decreases n - i,
    {
        let c = cs[i];
        let ghost before = cs@.take(i as int);
        let ghost now = cs@.take(i + 1);
        proof {
            assert(now.drop_last() =~= before);
            assert(now.last() == c);
        }
        if !('0' <= c && c <= '9') {
            return None;
        }
        if !over {
            acc = 10 * acc + (c as u32 - '0' as u32) as u64;
            if acc > LITERAL_MAX as u64 {
                over = true;
            }
        }
        proof {
            assert forall|j: int| 0 <= j < now.len() implies is_digit(#[trigger] now[j]) by {
                if j < before.len() {
                    assert(now[j] == before[j]);
                }
            }
        }
        i += 1;
    }
    proof {
        assert(cs@.take(n as int) =~= cs@);
    }
    if over {
        None
    } else {
        Some(acc as u32)
    }
}

} // verus!
