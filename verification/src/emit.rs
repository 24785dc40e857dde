//! The word emitter: from the bits of a word to two bytes of the image.

use crate::bits::{bits_value, is_bit, is_bit_string, lemma_bits_value_bound};
use crate::error::AsmError;
use crate::text::to_chars;
use vstd::arithmetic::power2::{lemma2_to64, lemma_pow2_strictly_increases};
use vstd::prelude::*;

verus! {

/// `hex::FromHexError`, the error of the `hex` crate's decoders. It is carried from
/// the decoder to the emitter and never looked into.
#[verifier::external_type_specification]
#[verifier::external_body]
pub struct ExFromHexError(hex::FromHexError);

/// The digits of a base-2 numeral: the text without the `+` that may lead it.
pub open spec fn numeral_digits(s: Seq<char>) -> Seq<char> {
    if s.len() > 0 && s[0] == '+' {
        s.skip(1)
    } else {
        s
    }
}

/// Whether `s` is a base-2 numeral: one or more binary digits, with or without a
/// `+` in front.
pub open spec fn is_binary_numeral(s: Seq<char>) -> bool {
    numeral_digits(s).len() > 0 && is_bit_string(numeral_digits(s))
}

/// What the base-2 numeral `s` denotes.
pub open spec fn numeral_value(s: Seq<char>) -> nat {
    bits_value(numeral_digits(s))
}

/// The two bytes of the word `v`, high byte first.
pub open spec fn word_bytes(v: nat) -> Seq<u8> {
    seq![(v / 256) as u8, (v % 256) as u8]
}

/// The bytes that the bits of a word are emitted as, or why they cannot be.
pub open spec fn word_of(bits: Seq<char>) -> Result<Seq<u8>, AsmError> {
    if !is_binary_numeral(bits) {
        Err(AsmError::InvalidBitString)
    } else if numeral_value(bits) >= 0x10000 {
        Err(AsmError::WordOverflow)
    } else {
        Ok(word_bytes(numeral_value(bits)))
    }
}

/// The value of a hexadecimal digit in ASCII, in either case.
pub open spec fn hex_digit_value(c: u8) -> Option<nat> {
    if 0x30 <= c <= 0x39 {
        Some((c - 0x30) as nat)
    } else if 0x61 <= c <= 0x66 {
        Some((c - 0x61 + 10) as nat)
    } else if 0x41 <= c <= 0x46 {
        Some((c - 0x41 + 10) as nat)
    } else {
        None
    }
}

/// Whether every byte of `text` is a hexadecimal digit.
pub open spec fn is_hex_text(text: Seq<u8>) -> bool {
    forall|i: int| 0 <= i < text.len() ==> hex_digit_value(#[trigger] text[i]) is Some
}

/// The bytes that hexadecimal text denotes, two digits to a byte.
pub open spec fn hex_bytes(text: Seq<u8>) -> Seq<u8> {
    Seq::new(
        text.len() / 2,
        |i: int|
            (16 * hex_digit_value(text[2 * i]).unwrap() + hex_digit_value(
                text[2 * i + 1],
            ).unwrap()) as u8,
    )
}

/// The lower-case hexadecimal digit of `d`, in ASCII.
pub open spec fn hex_char(d: nat) -> u8 {
    if d < 10 {
        (0x30 + d) as u8
    } else {
        (0x61 + d - 10) as u8
    }
}

/// `n` in lower-case hexadecimal, with zeros in front where it has fewer than four
/// digits.
pub open spec fn hex_text(n: nat) -> Seq<u8>
    decreases n,
{
    if n < 0x10000 {
        seq![hex_char(n / 4096), hex_char(n / 256 % 16), hex_char(n / 16 % 16), hex_char(n % 16)]
    } else {
        hex_text(n / 16).push(hex_char(n % 16))
    }
}

/// The hexadecimal text of a number is made of hexadecimal digits. It has four of
/// them exactly when the number fits in sixteen bits, and then denotes the number's
/// two bytes, high byte first.
pub proof fn lemma_hex_text(n: nat)
    ensures
        is_hex_text(hex_text(n)),
        hex_text(n).len() >= 4,
        n < 0x10000 <==> hex_text(n).len() == 4,
        n < 0x10000 ==> hex_bytes(hex_text(n)) == word_bytes(n),
    decreases n,
{
    if n < 0x10000 {
        let t = hex_text(n);
        let d3 = n / 4096;
        let d2 = n / 256 % 16;
        let d1 = n / 16 % 16;
        let d0 = n % 16;
        assert(d3 < 16 && d2 < 16 && d1 < 16 && d0 < 16);
        assert(hex_digit_value(hex_char(d3)) == Some(d3));
        assert(hex_digit_value(hex_char(d2)) == Some(d2));
        assert(hex_digit_value(hex_char(d1)) == Some(d1));
        assert(hex_digit_value(hex_char(d0)) == Some(d0));
        assert(16 * d3 + d2 == n / 256);
        assert(16 * d1 + d0 == n % 256);
        assert(hex_bytes(t) =~= word_bytes(n));
    } else {
        lemma_hex_text(n / 16);
        let d = n % 16;
        assert(hex_digit_value(hex_char(d)) == Some(d));
    }
}

/// A bit string of at least one digit is a base-2 numeral. Its word exists exactly
/// when what it denotes fits in sixteen bits, as it does for any string of at most
/// sixteen digits, and then has two bytes.
pub proof fn lemma_word_of_bit_string(bits: Seq<char>)
    requires
        is_bit_string(bits),
        bits.len() >= 1,
    ensures
        is_binary_numeral(bits),
        numeral_value(bits) == bits_value(bits),
        word_of(bits) is Ok <==> bits_value(bits) < 0x10000,
        word_of(bits) is Err ==> word_of(bits) == Err::<Seq<u8>, AsmError>(AsmError::WordOverflow),
        word_of(bits) is Ok ==> word_of(bits).unwrap() == word_bytes(bits_value(bits))
            && word_of(bits).unwrap().len() == 2,
        bits.len() <= 16 ==> word_of(bits) is Ok,
{
    assert(is_bit(bits[0]));
    assert(numeral_digits(bits) == bits);
    if bits.len() <= 16 {
        lemma_bits_value_bound(bits);
        lemma2_to64();
        lemma_pow2_strictly_increases(bits.len(), 17);
    }
}

/// Calls `hex::decode_to_slice`, which decodes hexadecimal text into `out`. The call
/// succeeds exactly when the text has two characters for each byte of `out` and all
/// of them are hexadecimal digits, in either case; byte `i` of `out` is then
/// sixteen times the value of character `2i` plus the value of character `2i + 1`.
#[verifier::external_body]
fn hex_decode_to_slice(text: &[u8], out: &mut [u8]) -> (r: Result<(), hex::FromHexError>)
    ensures
        r is Ok <==> (text@.len() == 2 * old(out)@.len() && is_hex_text(text@)),
        r is Ok ==> final(out)@ == hex_bytes(text@),
{
    hex::decode_to_slice(text, out)
}

/// The lower-case hexadecimal digit of `d`.
fn hex_char_of(d: u32) -> (c: u8)
    requires
        d < 16,
    ensures
        c == hex_char(d as nat),
{
    if d < 10 {
        (0x30 + d) as u8
    } else {
        (0x61 + d - 10) as u8
    }
}

/// Writes `v` in lower-case hexadecimal, with at least four digits.
fn hex_text_of(v: u32) -> (r: Vec<u8>)
    ensures
        r@ == hex_text(v as nat),
    decreases v,
{
    if v < 0x10000 {
        let mut t: Vec<u8> = Vec::new();
        t.push(hex_char_of(v / 4096));
        t.push(hex_char_of(v / 256 % 16));
        t.push(hex_char_of(v / 16 % 16));
        t.push(hex_char_of(v % 16));
        proof {
            assert(t@ =~= hex_text(v as nat));
        }
        t
    } else {
        let mut t = hex_text_of(v / 16);
        t.push(hex_char_of(v % 16));
        t
    }
}

/// Reads a base-2 numeral. The numeral must denote less than `2^32`.
pub fn from_binary(s: &str) -> (r: Result<u32, AsmError>)
    ensures
        match r {
            Ok(v) => is_binary_numeral(s@) && v == numeral_value(s@),
            Err(e) => if is_binary_numeral(s@) {
                e == AsmError::WordOverflow && numeral_value(s@) > u32::MAX
            } else {
                e == AsmError::InvalidBitString
            },
        },
{
    let cs = to_chars(s);
    let n = cs.len();
    let first: usize = if n > 0 && cs[0] == '+' {
        1
    } else {
        0
    };
    let ghost digits = numeral_digits(s@);
    proof {
        assert(digits =~= cs@.subrange(first as int, n as int));
    }
    if first == n {
        return Err(AsmError::InvalidBitString);
    }
    let mut acc: u64 = 0;
    let mut over = false;
    let mut i: usize = first;
    proof {
        assert(cs@.subrange(first as int, first as int) =~= Seq::<char>::empty());
    }
    while i < n
        invariant
            first <= i <= n,
            n == cs.len(),
            first < n,
            digits == numeral_digits(s@),
            digits == cs@.subrange(first as int, n as int),
            is_bit_string(cs@.subrange(first as int, i as int)),
            !over ==> acc == bits_value(cs@.subrange(first as int, i as int)),
            !over ==> acc <= u32::MAX,
            over ==> bits_value(cs@.subrange(first as int, i as int)) > u32::MAX,
        decreases n - i,
    {
        let c = cs[i];
        let ghost before = cs@.subrange(first as int, i as int);
        let ghost now = cs@.subrange(first as int, i + 1);
        proof {
            assert(now.drop_last() =~= before);
            assert(now.last() == c);
        }
        if c != '0' && c != '1' {
            proof {
                assert(digits[i - first] == c);
                assert(!is_bit(digits[i - first]));
            }
            return Err(AsmError::InvalidBitString);
        }
        if !over {
            acc = 2 * acc + (if c == '1' {
                1
            } else {
                0
            });
            if acc > u32::MAX as u64 {
                over = true;
            }
        }
        proof {
            assert forall|j: int| 0 <= j < now.len() implies is_bit(#[trigger] now[j]) by {
                if j < before.len() {
                    assert(now[j] == before[j]);
                }
            }
        }
        i += 1;
    }
    if over {
        Err(AsmError::WordOverflow)
    } else {
        Ok(acc as u32)
    }
}

/// Emits the word whose bits are `final_string`: appends its two bytes, high byte
/// first, to `out`. The bits are read as a base-2 numeral, so a string shorter or
/// longer than sixteen digits is a word as long as what it denotes fits in sixteen
/// bits.
pub fn write(final_string: &str, out: &mut Vec<u8>) -> (r: Result<(), AsmError>)
    ensures
        match word_of(final_string@) {
            Ok(w) => r is Ok && final(out)@ == old(out)@ + w,
            Err(e) => r == Err::<(), AsmError>(e) && final(out)@ == old(out)@,
        },
{
    let v = match from_binary(final_string) {
        Ok(v) => v,
        Err(e) => {
            return Err(e);
        },
    };
    let text = hex_text_of(v);
    proof {
        lemma_hex_text(v as nat);
    }
    let mut buf = [0u8; 2];
    match hex_decode_to_slice(text.as_slice(), &mut buf) {
        Ok(()) => {
            let ghost before = out@;
            out.push(buf[0]);
            out.push(buf[1]);
            proof {
                assert(out@ =~= before + word_bytes(v as nat));
            }
            Ok(())
        },
        Err(_) => Err(AsmError::WordOverflow),
    }
}

} // verus!
