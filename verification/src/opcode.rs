//! The operations of the machine and their three-bit codes.

use crate::bits::{
    binary_digits, bits_value, is_bit_string, lemma_binary_digits_denote, lemma_binary_digits_fit,
    lemma_zero_padded, zero_padded,
};
use crate::text::to_chars;
use vstd::arithmetic::power2::lemma2_to64;
use vstd::prelude::*;

verus! {

/// An operation of the machine.
#[derive(Clone, Copy, Debug, PartialEq, Eq, Structural)]
pub enum Opcode {
    /// `STR`: store an immediate or a register.
    Store,
    /// `LDR`: load an immediate or a register.
    Load,
    /// `ADD`: add an immediate or a register.
    Add,
    /// `SUB`: subtract an immediate or a register.
    Subtract,
    /// `JEQ`: branch if equal.
    JumpEq,
    /// `JLT`: branch if less.
    JumpLt,
    /// `JGT`: branch if greater.
    JumpGt,
    /// `JNE`: branch if not equal.
    JumpNe,
}

/// The operation that the mnemonic `m` names, if it names one.
pub open spec fn mnemonic_opcode(m: Seq<char>) -> Option<Opcode> {
    if m == seq!['S', 'T', 'R'] {
        Some(Opcode::Store)
    } else if m == seq!['L', 'D', 'R'] {
        Some(Opcode::Load)
    } else if m == seq!['A', 'D', 'D'] {
        Some(Opcode::Add)
    } else if m == seq!['S', 'U', 'B'] {
        Some(Opcode::Subtract)
    } else if m == seq!['J', 'E', 'Q'] {
        Some(Opcode::JumpEq)
    } else if m == seq!['J', 'L', 'T'] {
        Some(Opcode::JumpLt)
    } else if m == seq!['J', 'G', 'T'] {
        Some(Opcode::JumpGt)
    } else if m == seq!['J', 'N', 'E'] {
        Some(Opcode::JumpNe)
    } else {
        None
    }
}

impl Opcode {
    /// The number of the operation, from 0 to 7.
    pub open spec fn number(self) -> nat {
        match self {
            Opcode::Store => 0,
            Opcode::Load => 1,
            Opcode::Add => 2,
            Opcode::Subtract => 3,
            Opcode::JumpEq => 4,
            Opcode::JumpLt => 5,
            Opcode::JumpGt => 6,
            Opcode::JumpNe => 7,
        }
    }

    /// The opcode field of a word: the operation's number in three bits.
    pub open spec fn bits(self) -> Seq<char> {
        zero_padded(binary_digits(self.number()), 3)
    }

    /// The opcode field of a word, as text.
    pub fn code(&self) -> (r: &'static str)
        ensures
            r@ == self.bits(),
    {
        proof {
            lemma_opcode_bits();
            reveal_strlit("000");
            reveal_strlit("001");
            reveal_strlit("010");
            reveal_strlit("011");
            reveal_strlit("100");
            reveal_strlit("101");
            reveal_strlit("110");
            reveal_strlit("111");
        }
        match self {
            Opcode::Store => "000",
            Opcode::Load => "001",
            Opcode::Add => "010",
            Opcode::Subtract => "011",
            Opcode::JumpEq => "100",
            Opcode::JumpLt => "101",
            Opcode::JumpGt => "110",
            Opcode::JumpNe => "111",
        }
    }
}

/// The eight opcode fields, written out.
pub proof fn lemma_opcode_bits()
    ensures
        Opcode::Store.bits() == seq!['0', '0', '0'],
        Opcode::Load.bits() == seq!['0', '0', '1'],
        Opcode::Add.bits() == seq!['0', '1', '0'],
        Opcode::Subtract.bits() == seq!['0', '1', '1'],
        Opcode::JumpEq.bits() == seq!['1', '0', '0'],
        Opcode::JumpLt.bits() == seq!['1', '0', '1'],
        Opcode::JumpGt.bits() == seq!['1', '1', '0'],
        Opcode::JumpNe.bits() == seq!['1', '1', '1'],
{
    reveal_with_fuel(binary_digits, 4);
    assert(Opcode::Store.bits() =~= seq!['0', '0', '0']);
    assert(Opcode::Load.bits() =~= seq!['0', '0', '1']);
    assert(Opcode::Add.bits() =~= seq!['0', '1', '0']);
    assert(Opcode::Subtract.bits() =~= seq!['0', '1', '1']);
    assert(Opcode::JumpEq.bits() =~= seq!['1', '0', '0']);
    assert(Opcode::JumpLt.bits() =~= seq!['1', '0', '1']);
    assert(Opcode::JumpGt.bits() =~= seq!['1', '1', '0']);
    assert(Opcode::JumpNe.bits() =~= seq!['1', '1', '1']);
}

/// An opcode field has three binary digits and denotes the operation's number.
pub proof fn lemma_opcode_field(op: Opcode)
    ensures
        op.number() < 8,
        op.bits().len() == 3,
        is_bit_string(op.bits()),
        bits_value(op.bits()) == op.number(),
{
    lemma2_to64();
    lemma_binary_digits_denote(op.number());
    lemma_binary_digits_fit(op.number(), 3);
    lemma_zero_padded(binary_digits(op.number()), 3);
}

/// Looks a mnemonic up.
pub fn opcode_of(mnemonic: &str) -> (r: Option<Opcode>)
    ensures
        r == mnemonic_opcode(mnemonic@),
{
    let cs = to_chars(mnemonic);
    if cs.len() != 3 {
        return None;
    }
    let c0 = cs[0];
    let c1 = cs[1];
    let c2 = cs[2];
    proof {
        assert(mnemonic@ =~= seq![c0, c1, c2]);
    }
    if c0 == 'S' && c1 == 'T' && c2 == 'R' {
        Some(Opcode::Store)
    } else if c0 == 'L' && c1 == 'D' && c2 == 'R' {
        Some(Opcode::Load)
    } else if c0 == 'A' && c1 == 'D' && c2 == 'D' {
        Some(Opcode::Add)
    } else if c0 == 'S' && c1 == 'U' && c2 == 'B' {
        Some(Opcode::Subtract)
    } else if c0 == 'J' && c1 == 'E' && c2 == 'Q' {
        Some(Opcode::JumpEq)
    } else if c0 == 'J' && c1 == 'L' && c2 == 'T' {
        Some(Opcode::JumpLt)
    } else if c0 == 'J' && c1 == 'G' && c2 == 'T' {
        Some(Opcode::JumpGt)
    } else if c0 == 'J' && c1 == 'N' && c2 == 'E' {
        Some(Opcode::JumpNe)
    } else {
        None
    }
}

} // verus!
