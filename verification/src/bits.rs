//! Bit strings: sequences of the digits `0` and `1`, most significant digit first.

use vstd::arithmetic::power2::*;
use vstd::prelude::*;
use vstd::string::*;

verus! {

/// The digit that stands for a bit.
pub open spec fn bit_char(b: nat) -> char {
    if b == 0 {
        '0'
    } else {
        '1'
    }
}

/// The base-2 numeral of `n`, most significant digit first and without leading
/// zeros; zero is the single digit `0`.
pub open spec fn binary_digits(n: nat) -> Seq<char>
    decreases n,
{
    if n < 2 {
        seq![bit_char(n)]
    } else {
        binary_digits(n / 2).push(bit_char(n % 2))
    }
}

/// `k` zero digits.
pub open spec fn zeros(k: nat) -> Seq<char> {
    Seq::new(k, |i: int| '0')
}

/// `digits` with zeros put in front until it has `width` digits; longer digit
/// strings are left as they are.
pub open spec fn zero_padded(digits: Seq<char>, width: nat) -> Seq<char> {
    if digits.len() >= width {
        digits
    } else {
        zeros((width - digits.len()) as nat) + digits
    }
}

/// Whether `c` is a binary digit.
pub open spec fn is_bit(c: char) -> bool {
    c == '0' || c == '1'
}

/// Whether every character of `s` is a binary digit.
pub open spec fn is_bit_string(s: Seq<char>) -> bool {
    forall|i: int| 0 <= i < s.len() ==> is_bit(#[trigger] s[i])
}

/// The number that a bit string denotes in base 2. The empty string denotes 0.
pub open spec fn bits_value(s: Seq<char>) -> nat
    decreases s.len(),
{
    if s.len() == 0 {
        0
    } else {
        2 * bits_value(s.drop_last()) + (if s.last() == '1' {
            1nat
        } else {
            0nat
        })
    }
}

/// The numeral of `n` is a bit string that denotes `n`, and starts with the digit
/// `1` unless `n` is zero.
pub proof fn lemma_binary_digits_denote(n: nat)
    ensures
        binary_digits(n).len() >= 1,
        is_bit_string(binary_digits(n)),
        bits_value(binary_digits(n)) == n,
        n >= 1 ==> binary_digits(n)[0] == '1',
    decreases n,
{
    if n < 2 {
        let d = binary_digits(n);
        assert(d.drop_last() =~= Seq::<char>::empty());
        assert(bits_value(d.drop_last()) == 0);
    } else {
        lemma_binary_digits_denote(n / 2);
        let d = binary_digits(n);
        assert(d.drop_last() =~= binary_digits(n / 2));
    }
}

/// A number below `2^k` has a numeral of at most `k` digits, for `k >= 1`.
pub proof fn lemma_binary_digits_fit(n: nat, k: nat)
    requires
        k >= 1,
        n < pow2(k),
    ensures
        binary_digits(n).len() <= k,
    decreases k,
{
    lemma_pow2_unfold(k);
    if n >= 2 {
        if k == 1 {
            lemma2_to64();
        } else {
            lemma_binary_digits_fit(n / 2, (k - 1) as nat);
        }
    }
}

/// A number of at least `2^k` has a numeral of more than `k` digits.
pub proof fn lemma_binary_digits_exceed(n: nat, k: nat)
    requires
        n >= pow2(k),
    ensures
        binary_digits(n).len() > k,
    decreases k,
{
    if k > 0 {
        lemma_pow2_unfold(k);
        lemma_pow2_pos((k - 1) as nat);
        lemma_binary_digits_exceed(n / 2, (k - 1) as nat);
    }
}

/// A bit string of `k` digits denotes a number below `2^k`.
pub proof fn lemma_bits_value_bound(s: Seq<char>)
    ensures
        bits_value(s) < pow2(s.len()),
    decreases s.len(),
{
    if s.len() == 0 {
        lemma2_to64();
    } else {
        lemma_bits_value_bound(s.drop_last());
        lemma_pow2_unfold(s.len());
    }
}

/// Digits put behind a bit string shift its value left and add their own.
pub proof fn lemma_bits_value_concat(a: Seq<char>, b: Seq<char>)
    ensures
        bits_value(a + b) == bits_value(a) * pow2(b.len()) + bits_value(b),
    decreases b.len(),
{
    if b.len() == 0 {
        assert(a + b =~= a);
        lemma2_to64();
        assert(bits_value(a) * 1 == bits_value(a)) by (nonlinear_arith);
    } else {
        let p = pow2((b.len() - 1) as nat);
        lemma_bits_value_concat(a, b.drop_last());
        assert((a + b).drop_last() =~= a + b.drop_last());
        assert((a + b).last() == b.last());
        lemma_pow2_unfold(b.len());
        assert(pow2(b.len()) == 2 * p);
        assert(bits_value(a) * (2 * p) == 2 * (bits_value(a) * p)) by (nonlinear_arith);
    }
}

/// Zero digits denote zero.
pub proof fn lemma_zeros_value(k: nat)
    ensures
        bits_value(zeros(k)) == 0,
        is_bit_string(zeros(k)),
    decreases k,
{
    if k > 0 {
        lemma_zeros_value((k - 1) as nat);
        assert(zeros(k).drop_last() =~= zeros((k - 1) as nat));
    }
}

/// Padding with zeros changes neither what a bit string denotes nor that it is one,
/// and fills the width exactly when the digits fit.
pub proof fn lemma_zero_padded(digits: Seq<char>, width: nat)
    ensures
        bits_value(zero_padded(digits, width)) == bits_value(digits),
        is_bit_string(digits) ==> is_bit_string(zero_padded(digits, width)),
        digits.len() <= width ==> zero_padded(digits, width).len() == width,
        digits.len() > width ==> zero_padded(digits, width) == digits,
{
    if digits.len() < width {
        let k = (width - digits.len()) as nat;
        lemma_zeros_value(k);
        lemma_bits_value_concat(zeros(k), digits);
        assert(0 * pow2(digits.len()) == 0) by (nonlinear_arith);
    }
}

/// Bit strings put together make a bit string.
pub proof fn lemma_bit_string_concat(a: Seq<char>, b: Seq<char>)
    requires
        is_bit_string(a),
        is_bit_string(b),
    ensures
        is_bit_string(a + b),
{
    assert forall|i: int| 0 <= i < (a + b).len() implies is_bit(#[trigger] (a + b)[i]) by {
        if i < a.len() {
            assert((a + b)[i] == a[i]);
        } else {
            assert((a + b)[i] == b[i - a.len()]);
        }
    }
}

/// The digit of a bit, as a string.
fn bit_str(one: bool) -> (r: &'static str)
    ensures
        r@ == seq![bit_char(if one { 1nat } else { 0nat })],
{
    proof {
        reveal_strlit("0");
        reveal_strlit("1");
    }
    if one {
        "1"
    } else {
        "0"
    }
}

/// Renders `num` in base 2.
pub fn get_bin(num: u32) -> (r: String)
    ensures
        r@ == binary_digits(num as nat),
    decreases num,
{
    if num < 2 {
        String::from_str(bit_str(num == 1))
    } else {
        let mut s = get_bin(num / 2);
        s.append(bit_str(num % 2 == 1));
        s
    }
}

/// Puts zeros in front of `digits` until it has `width` digits.
pub fn zero_pad(digits: &str, width: usize) -> (r: String)
    ensures
        r@ == zero_padded(digits@, width as nat),
{
    let len = digits.unicode_len();
    let mut s = String::new();
    if len < width {
        let k = width - len;
        let mut i: usize = 0;
        while i < k
            invariant
                i <= k,
                s@ == zeros(i as nat),
            decreases k - i,
        {
            s.append(bit_str(false));
            i += 1;
        }
    }
    s.append(digits);
    s
}

} // verus!
