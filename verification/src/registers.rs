//! The register table: sixteen register names, each with a four-bit code.

use crate::bits::{
    binary_digits, bits_value, is_bit_string, lemma_binary_digits_denote, lemma_binary_digits_fit,
    lemma_zero_padded, zero_padded,
};
use crate::text::to_chars;
use vstd::arithmetic::power2::lemma2_to64;
use vstd::prelude::*;

verus! {

/// The number of the register called `name`, if there is one: the registers are
/// `AR`, `C1`, `C2` and `A` to `M`, in this order, numbered from 0.
pub open spec fn register_number(name: Seq<char>) -> Option<nat> {
    if name == seq!['A', 'R'] {
        Some(0)
    } else if name == seq!['C', '1'] {
        Some(1)
    } else if name == seq!['C', '2'] {
        Some(2)
    } else if name == seq!['A'] {
        Some(3)
    } else if name == seq!['B'] {
        Some(4)
    } else if name == seq!['C'] {
        Some(5)
    } else if name == seq!['D'] {
        Some(6)
    } else if name == seq!['E'] {
        Some(7)
    } else if name == seq!['F'] {
        Some(8)
    } else if name == seq!['G'] {
        Some(9)
    } else if name == seq!['H'] {
        Some(10)
    } else if name == seq!['I'] {
        Some(11)
    } else if name == seq!['J'] {
        Some(12)
    } else if name == seq!['K'] {
        Some(13)
    } else if name == seq!['L'] {
        Some(14)
    } else if name == seq!['M'] {
        Some(15)
    } else {
        None
    }
}

/// The four-bit field that holds `n`.
pub open spec fn nibble(n: nat) -> Seq<char> {
    zero_padded(binary_digits(n), 4)
}

/// The code of the register called `name`: its number in four bits. A name that
/// is no register's has the empty code.
pub open spec fn register_code(name: Seq<char>) -> Seq<char> {
    match register_number(name) {
        Some(n) => nibble(n),
        None => Seq::<char>::empty(),
    }
}

/// The sixteen four-bit fields, written out.
pub proof fn lemma_nibbles()
    ensures
        nibble(0) == seq!['0', '0', '0', '0'],
        nibble(1) == seq!['0', '0', '0', '1'],
        nibble(2) == seq!['0', '0', '1', '0'],
        nibble(3) == seq!['0', '0', '1', '1'],
        nibble(4) == seq!['0', '1', '0', '0'],
        nibble(5) == seq!['0', '1', '0', '1'],
        nibble(6) == seq!['0', '1', '1', '0'],
        nibble(7) == seq!['0', '1', '1', '1'],
        nibble(8) == seq!['1', '0', '0', '0'],
        nibble(9) == seq!['1', '0', '0', '1'],
        nibble(10) == seq!['1', '0', '1', '0'],
        nibble(11) == seq!['1', '0', '1', '1'],
        nibble(12) == seq!['1', '1', '0', '0'],
        nibble(13) == seq!['1', '1', '0', '1'],
        nibble(14) == seq!['1', '1', '1', '0'],
        nibble(15) == seq!['1', '1', '1', '1'],
{
    reveal_with_fuel(binary_digits, 5);
    assert(nibble(0) =~= seq!['0', '0', '0', '0']);
    assert(nibble(1) =~= seq!['0', '0', '0', '1']);
    assert(nibble(2) =~= seq!['0', '0', '1', '0']);
    assert(nibble(3) =~= seq!['0', '0', '1', '1']);
    assert(nibble(4) =~= seq!['0', '1', '0', '0']);
    assert(nibble(5) =~= seq!['0', '1', '0', '1']);
    assert(nibble(6) =~= seq!['0', '1', '1', '0']);
    assert(nibble(7) =~= seq!['0', '1', '1', '1']);
    assert(nibble(8) =~= seq!['1', '0', '0', '0']);
    assert(nibble(9) =~= seq!['1', '0', '0', '1']);
    assert(nibble(10) =~= seq!['1', '0', '1', '0']);
    assert(nibble(11) =~= seq!['1', '0', '1', '1']);
    assert(nibble(12) =~= seq!['1', '1', '0', '0']);
    assert(nibble(13) =~= seq!['1', '1', '0', '1']);
    assert(nibble(14) =~= seq!['1', '1', '1', '0']);
    assert(nibble(15) =~= seq!['1', '1', '1', '1']);
}

/// Every register code has four bits and denotes the register's number.
pub proof fn lemma_register_code(name: Seq<char>)
    ensures
        is_bit_string(register_code(name)),
        match register_number(name) {
            Some(n) => n < 16 && register_code(name).len() == 4 && bits_value(
                register_code(name),
            ) == n,
            None => register_code(name).len() == 0,
        },
{
    match register_number(name) {
        Some(n) => {
            lemma2_to64();
            lemma_binary_digits_denote(n);
            lemma_binary_digits_fit(n, 4);
            lemma_zero_padded(binary_digits(n), 4);
        },
        None => {},
    }
}

/// Looks a register name up: its four-bit code, or the empty string where the
/// name is no register's. The code is empty for such names only, so that a caller
/// can tell them by it.
pub fn parse_register(reg: &str) -> (r: &'static str)
    ensures
        r@ == register_code(reg@),
{
    let cs = to_chars(reg);
    proof {
        lemma_nibbles();
        reveal_strlit("0000");
        reveal_strlit("0001");
        reveal_strlit("0010");
        reveal_strlit("0011");
        reveal_strlit("0100");
        reveal_strlit("0101");
        reveal_strlit("0110");
        reveal_strlit("0111");
        reveal_strlit("1000");
        reveal_strlit("1001");
        reveal_strlit("1010");
        reveal_strlit("1011");
        reveal_strlit("1100");
        reveal_strlit("1101");
        reveal_strlit("1110");
        reveal_strlit("1111");
        reveal_strlit("");
    }
    if cs.len() == 2 {
        let c0 = cs[0];
        let c1 = cs[1];
        proof {
            assert(reg@ =~= seq![c0, c1]);
        }
        if c0 == 'A' && c1 == 'R' {
            "0000"
        } else if c0 == 'C' && c1 == '1' {
            "0001"
        } else if c0 == 'C' && c1 == '2' {
            "0010"
        } else {
            ""
        }
    } else if cs.len() == 1 {
        let c = cs[0];
        proof {
            assert(reg@ =~= seq![c]);
        }
        match c {
            'A' => "0011",
            'B' => "0100",
            'C' => "0101",
            'D' => "0110",
            'E' => "0111",
            'F' => "1000",
            'G' => "1001",
            'H' => "1010",
            'I' => "1011",
            'J' => "1100",
            'K' => "1101",
            'L' => "1110",
            'M' => "1111",
            _ => "",
        }
    } else {
        ""
    }
}

} // verus!
