//! The instruction encoders: from the tokens of a line to the bits of its word.
//!
//! A word is an opcode field of three bits followed by an operand field. The
//! operand field of a branch, and of the other instructions with register
//! operands or with an immediate of `ADD` or `SUB`, has thirteen bits. The
//! immediate of `STR` and `LDR` is written without padding, so their operand field
//! is as long as the immediate's numeral makes it. A register operand whose name
//! is unknown has the empty code and so adds no bits to the field. In every case
//! the word is what all the bits together denote as one base-2 numeral, and a line
//! fails where that number does not fit in sixteen bits.
//!
//! An operand is an immediate where its token is made of decimal digits, and a
//! register name otherwise.

use crate::bits::{
    binary_digits, bits_value, get_bin, is_bit_string, lemma_binary_digits_denote,
    lemma_binary_digits_exceed, lemma_binary_digits_fit, lemma_bit_string_concat,
    lemma_bits_value_bound, lemma_bits_value_concat, lemma_zero_padded, lemma_zeros_value,
    zero_pad, zero_padded, zeros,
};
use crate::emit::{lemma_word_of_bit_string, word_bytes, word_of};
use crate::error::AsmError;
use crate::labels::{get_label, label_field, lemma_label_field, resolve, LabelTable};
use crate::opcode::{lemma_opcode_bits, lemma_opcode_field, mnemonic_opcode, opcode_of, Opcode};
use crate::operand::{is_number, is_numeric, literal_value, parse_literal};
use crate::registers::{
    lemma_register_code, nibble, parse_register, register_code, register_number,
};
use crate::text::{tokens, tokens_of, views_of};
use vstd::arithmetic::power2::{
    lemma2_to64, lemma_pow2_adds, lemma_pow2_strictly_increases, pow2,
};
use vstd::prelude::*;
use vstd::string::*;

verus! {

/// The width of the immediate field of `ADD` and `SUB`, in bits.
pub const IMMEDIATE_WIDTH: usize = 8;

/// The operand field for two register operands, from the registers' codes: the mode
/// bit `1`, the code of the second operand, four zeros, the code of the first.
pub open spec fn register_field(code1: Seq<char>, code2: Seq<char>) -> Seq<char> {
    seq!['1'] + code2 + seq!['0', '0', '0', '0'] + code1
}

/// The immediate field of `ADD` and `SUB`: the immediate in base 2, padded with zeros
/// to eight digits.
pub open spec fn immediate_field(v: nat) -> Seq<char> {
    zero_padded(binary_digits(v), IMMEDIATE_WIDTH as nat)
}

/// The bits of a `STR` word, from the tokens of the line. The first operand is an
/// immediate or a register, the second a register.
pub open spec fn store_bits(t: Seq<Seq<char>>) -> Result<Seq<char>, AsmError> {
    if t.len() < 3 {
        Err(AsmError::MissingOperand)
    } else if is_number(t[1]) {
        match literal_value(t[1]) {
            None => Err(AsmError::InvalidLiteral),
            Some(v) => Ok(
                Opcode::Store.bits() + seq!['0'] + register_code(t[2]) + binary_digits(v),
            ),
        }
    } else {
        Ok(Opcode::Store.bits() + register_field(register_code(t[1]), register_code(t[2])))
    }
}

/// The bits of an `LDR` word, from the tokens of the line. The operand is an
/// immediate or a register.
pub open spec fn load_bits(t: Seq<Seq<char>>) -> Result<Seq<char>, AsmError> {
    if t.len() < 2 {
        Err(AsmError::MissingOperand)
    } else if is_number(t[1]) {
        match literal_value(t[1]) {
            None => Err(AsmError::InvalidLiteral),
            Some(v) => Ok(Opcode::Load.bits() + seq!['0', '0', '0', '0', '0'] + binary_digits(v)),
        }
    } else {
        Ok(
            Opcode::Load.bits() + seq!['1'] + seq!['0', '0', '0', '0', '0', '0', '0', '0']
                + register_code(t[1]),
        )
    }
}

/// The opcode field that the mnemonic of an arithmetic line stands for. A mnemonic
/// other than `ADD` and `SUB` stands for no bits at all.
pub open spec fn arith_opcode_bits(m: Seq<char>) -> Seq<char> {
    match mnemonic_opcode(m) {
        Some(Opcode::Add) => Opcode::Add.bits(),
        Some(Opcode::Subtract) => Opcode::Subtract.bits(),
        _ => Seq::<char>::empty(),
    }
}

/// The bits of an `ADD` or `SUB` word, from the tokens of the line. The first
/// operand is an immediate below 256 or a register, the second a register.
pub open spec fn arith_bits(t: Seq<Seq<char>>) -> Result<Seq<char>, AsmError> {
    if t.len() < 3 {
        Err(AsmError::MissingOperand)
    } else if is_number(t[1]) {
        match literal_value(t[1]) {
            None => Err(AsmError::InvalidLiteral),
            Some(v) => if v >= 256 {
                Err(AsmError::ImmediateTooWide)
            } else {
                Ok(
                    arith_opcode_bits(t[0]) + seq!['0'] + register_code(t[2]) + immediate_field(
                        v,
                    ),
                )
            },
        }
    } else {
        Ok(arith_opcode_bits(t[0]) + register_field(register_code(t[1]), register_code(t[2])))
    }
}

/// The opcode field that the mnemonic of a branch line stands for. A mnemonic other
/// than `JEQ`, `JLT`, `JGT` and `JNE` stands for no bits at all.
pub open spec fn jump_opcode_bits(m: Seq<char>) -> Seq<char> {
    match mnemonic_opcode(m) {
        Some(Opcode::JumpEq) => Opcode::JumpEq.bits(),
        Some(Opcode::JumpLt) => Opcode::JumpLt.bits(),
        Some(Opcode::JumpGt) => Opcode::JumpGt.bits(),
        Some(Opcode::JumpNe) => Opcode::JumpNe.bits(),
        _ => Seq::<char>::empty(),
    }
}

/// The bits of a branch word, from the tokens of the line and the labels defined so
/// far. The operand is a label name.
pub open spec fn jump_bits(t: Seq<Seq<char>>, labels: Map<Seq<char>, u32>) -> Result<
    Seq<char>,
    AsmError,
> {
    if t.len() < 2 {
        Err(AsmError::MissingOperand)
    } else {
        Ok(jump_opcode_bits(t[0]) + label_field(resolve(labels, t[1]) as nat))
    }
}

/// The bytes that an encoded line adds to the image when the byte counter stands at
/// `counter`, or why it adds none.
pub open spec fn emitted(bits: Result<Seq<char>, AsmError>, counter: u32) -> Result<
    Seq<u8>,
    AsmError,
> {
    match bits {
        Err(e) => Err(e),
        Ok(b) => if counter > u32::MAX - 2 {
            Err(AsmError::CounterOverflow)
        } else {
            word_of(b)
        },
    }
}

/// Emits the word with the given bits and advances the byte counter past it.
fn emit_word(bits: &str, bytes: &mut u32, out: &mut Vec<u8>) -> (r: Result<(), AsmError>)
    ensures
        match emitted(Ok(bits@), *old(bytes)) {
            Ok(w) => r is Ok && *final(bytes) == *old(bytes) + 2 && final(out)@ == old(out)@ + w,
            Err(e) => r == Err::<(), AsmError>(e) && *final(bytes) == *old(bytes) && final(out)@
                == old(out)@,
        },
{
    if *bytes > u32::MAX - 2 {
        return Err(AsmError::CounterOverflow);
    }
    match crate::emit::write(bits, out) {
        Ok(()) => {
            *bytes = *bytes + 2;
            Ok(())
        },
        Err(e) => Err(e),
    }
}

/// Appends the operand field for two register operands.
fn append_register_field(s: &mut String, op1: &str, op2: &str)
    ensures
        final(s)@ == old(s)@ + register_field(register_code(op1@), register_code(op2@)),
{
    proof {
        reveal_strlit("1");
        reveal_strlit("0000");
    }
    let ghost before = s@;
    s.append("1");
    s.append(parse_register(op2));
    s.append("0000");
    s.append(parse_register(op1));
    proof {
        assert(s@ =~= before + register_field(register_code(op1@), register_code(op2@)));
    }
}

/// Encodes a `STR` line and emits its word. The mnemonic is not looked at.
pub fn store(bytes: &mut u32, line: &str, out: &mut Vec<u8>) -> (r: Result<(), AsmError>)
    ensures
        match emitted(store_bits(tokens_of(line@)), *old(bytes)) {
            Ok(w) => r is Ok && *final(bytes) == *old(bytes) + 2 && final(out)@ == old(out)@ + w,
            Err(e) => r == Err::<(), AsmError>(e) && *final(bytes) == *old(bytes) && final(out)@
                == old(out)@,
        },
{
    let split_line = tokens(line);
    let ghost t = tokens_of(line@);
    if split_line.len() < 3 {
        return Err(AsmError::MissingOperand);
    }
    proof {
        assert(views_of(split_line@)[1] == split_line@[1]@);
        assert(views_of(split_line@)[2] == split_line@[2]@);
    }
    let mut s = String::from_str(Opcode::Store.code());
    if !is_numeric(split_line[1]) {
        append_register_field(&mut s, split_line[1], split_line[2]);
    } else {
        let v = match parse_literal(split_line[1]) {
            Some(v) => v,
            None => {
                return Err(AsmError::InvalidLiteral);
            },
        };
        proof {
            reveal_strlit("0");
        }
        s.append("0");
        s.append(parse_register(split_line[2]));
        let temp_var = get_bin(v);
        s.append(temp_var.as_str());
        proof {
            assert(s@ =~= Opcode::Store.bits() + seq!['0'] + register_code(t[2]) + binary_digits(
                v as nat,
            ));
        }
    }
    emit_word(s.as_str(), bytes, out)
}

/// Encodes an `LDR` line and emits its word. The mnemonic is not looked at.
pub fn load(bytes: &mut u32, line: &str, out: &mut Vec<u8>) -> (r: Result<(), AsmError>)
    ensures
        match emitted(load_bits(tokens_of(line@)), *old(bytes)) {
            Ok(w) => r is Ok && *final(bytes) == *old(bytes) + 2 && final(out)@ == old(out)@ + w,
            Err(e) => r == Err::<(), AsmError>(e) && *final(bytes) == *old(bytes) && final(out)@
                == old(out)@,
        },
{
    let split_line = tokens(line);
    let ghost t = tokens_of(line@);
    if split_line.len() < 2 {
        return Err(AsmError::MissingOperand);
    }
    proof {
        assert(views_of(split_line@)[1] == split_line@[1]@);
        reveal_strlit("1");
        reveal_strlit("00000000");
        reveal_strlit("00000");
    }
    let mut s = String::from_str(Opcode::Load.code());
    if !is_numeric(split_line[1]) {
        s.append("1");
        s.append("00000000");
        s.append(parse_register(split_line[1]));
        proof {
            assert(s@ =~= Opcode::Load.bits() + seq!['1'] + seq![
                '0',
                '0',
                '0',
                '0',
                '0',
                '0',
                '0',
                '0',
            ] + register_code(t[1]));
        }
    } else {
        let v = match parse_literal(split_line[1]) {
            Some(v) => v,
            None => {
                return Err(AsmError::InvalidLiteral);
            },
        };
        s.append("00000");
        let temp_var = get_bin(v);
        s.append(temp_var.as_str());
        proof {
            assert(s@ =~= Opcode::Load.bits() + seq!['0', '0', '0', '0', '0'] + binary_digits(
                v as nat,
            ));
        }
    }
    emit_word(s.as_str(), bytes, out)
}

/// Encodes an `ADD` or `SUB` line and emits its word. An immediate of 256 or more is
/// refused. The mnemonic decides the opcode field: for a line with any other
/// mnemonic the word has none.
pub fn add_sub(bytes: &mut u32, line: &str, out: &mut Vec<u8>) -> (r: Result<(), AsmError>)
    ensures
        match emitted(arith_bits(tokens_of(line@)), *old(bytes)) {
            Ok(w) => r is Ok && *final(bytes) == *old(bytes) + 2 && final(out)@ == old(out)@ + w,
            Err(e) => r == Err::<(), AsmError>(e) && *final(bytes) == *old(bytes) && final(out)@
                == old(out)@,
        },
{
    let split_line = tokens(line);
    let ghost t = tokens_of(line@);
    proof {
        assert(views_of(split_line@)[0] == split_line@[0]@);
    }
    let mut s = String::new();
    match opcode_of(split_line[0]) {
        Some(Opcode::Add) => {
            s.append(Opcode::Add.code());
        },
        Some(Opcode::Subtract) => {
            s.append(Opcode::Subtract.code());
        },
        _ => {},
    }
    proof {
        assert(s@ =~= arith_opcode_bits(t[0]));
    }
    if split_line.len() < 3 {
        return Err(AsmError::MissingOperand);
    }
    proof {
        assert(views_of(split_line@)[1] == split_line@[1]@);
        assert(views_of(split_line@)[2] == split_line@[2]@);
    }
    if !is_numeric(split_line[1]) {
        append_register_field(&mut s, split_line[1], split_line[2]);
    } else {
        let v = match parse_literal(split_line[1]) {
            Some(v) => v,
            None => {
                return Err(AsmError::InvalidLiteral);
            },
        };
        if v >= 256 {
            return Err(AsmError::ImmediateTooWide);
        }
        proof {
            reveal_strlit("0");
        }
        s.append("0");
        s.append(parse_register(split_line[2]));
        let digits = get_bin(v);
        let temp_var = zero_pad(digits.as_str(), IMMEDIATE_WIDTH);
        s.append(temp_var.as_str());
        proof {
            assert(s@ =~= arith_opcode_bits(t[0]) + seq!['0'] + register_code(t[2])
                + immediate_field(v as nat));
        }
    }
    emit_word(s.as_str(), bytes, out)
}

/// Encodes a branch line and emits its word. The target is the offset that the
/// label resolves to at this point of the pass: 0 for a label that is defined
/// further down. The mnemonic decides the opcode field: for a line with a mnemonic
/// other than the four branches the word has none.
pub fn jump(bytes: &mut u32, line: &str, out: &mut Vec<u8>, labels: &LabelTable) -> (r: Result<
    (),
    AsmError,
>)
    ensures
        match emitted(jump_bits(tokens_of(line@), labels@), *old(bytes)) {
            Ok(w) => r is Ok && *final(bytes) == *old(bytes) + 2 && final(out)@ == old(out)@ + w,
            Err(e) => r == Err::<(), AsmError>(e) && *final(bytes) == *old(bytes) && final(out)@
                == old(out)@,
        },
{
    let split_line = tokens(line);
    let ghost t = tokens_of(line@);
    proof {
        assert(views_of(split_line@)[0] == split_line@[0]@);
    }
    let mut s = String::new();
    match opcode_of(split_line[0]) {
        Some(Opcode::JumpEq) => {
            s.append(Opcode::JumpEq.code());
        },
        Some(Opcode::JumpLt) => {
            s.append(Opcode::JumpLt.code());
        },
        Some(Opcode::JumpGt) => {
            s.append(Opcode::JumpGt.code());
        },
        Some(Opcode::JumpNe) => {
            s.append(Opcode::JumpNe.code());
        },
        _ => {},
    }
    proof {
        assert(s@ =~= jump_opcode_bits(t[0]));
    }
    if split_line.len() < 2 {
        return Err(AsmError::MissingOperand);
    }
    proof {
        assert(views_of(split_line@)[1] == split_line@[1]@);
    }
    let field = get_label(split_line[1], labels);
    s.append(field.as_str());
    emit_word(s.as_str(), bytes, out)
}

/// An immediate below 256 fills the immediate field of `ADD` and `SUB` exactly: the
/// field has eight binary digits and denotes the immediate.
pub proof fn lemma_immediate_field(v: nat)
    requires
        v < 256,
    ensures
        immediate_field(v).len() == 8,
        is_bit_string(immediate_field(v)),
        bits_value(immediate_field(v)) == v,
{
    lemma2_to64();
    lemma_binary_digits_denote(v);
    lemma_binary_digits_fit(v, 8);
    lemma_zero_padded(binary_digits(v), 8);
}

/// The operand field for two register operands is made of binary digits, and has
/// thirteen of them where both codes have four.
pub proof fn lemma_register_field(code1: Seq<char>, code2: Seq<char>)
    requires
        is_bit_string(code1),
        is_bit_string(code2),
    ensures
        is_bit_string(register_field(code1, code2)),
        register_field(code1, code2).len() == 5 + code1.len() + code2.len(),
{
    lemma_bit_string_concat(seq!['1'], code2);
    lemma_bit_string_concat(seq!['1'] + code2, seq!['0', '0', '0', '0']);
    lemma_bit_string_concat(seq!['1'] + code2 + seq!['0', '0', '0', '0'], code1);
}

/// With register operands, the word of a `STR`, `ADD` or `SUB` line is its opcode
/// field followed by an operand field that the codes of the two registers decide
/// between them.
pub proof fn lemma_register_operands(t: Seq<Seq<char>>)
    requires
        t.len() >= 3,
        !is_number(t[1]),
    ensures
        store_bits(t) == Ok::<Seq<char>, AsmError>(
            Opcode::Store.bits() + register_field(register_code(t[1]), register_code(t[2])),
        ),
        arith_bits(t) == Ok::<Seq<char>, AsmError>(
            arith_opcode_bits(t[0]) + register_field(register_code(t[1]), register_code(t[2])),
        ),
        register_number(t[1]) is Some && register_number(t[2]) is Some ==> register_field(
            register_code(t[1]),
            register_code(t[2]),
        ).len() == 13,
{
    lemma_register_code(t[1]);
    lemma_register_code(t[2]);
    lemma_register_field(register_code(t[1]), register_code(t[2]));
}

/// An `ADD` line and a `SUB` line with the same register operands have words of the
/// same length that differ in their opcode fields and nowhere else.
pub proof fn lemma_add_sub_differ_in_opcode(a: Seq<Seq<char>>, s: Seq<Seq<char>>)
    requires
        a.len() >= 3,
        s.len() >= 3,
        mnemonic_opcode(a[0]) == Some(Opcode::Add),
        mnemonic_opcode(s[0]) == Some(Opcode::Subtract),
        a[1] == s[1],
        a[2] == s[2],
        !is_number(a[1]),
    ensures
        arith_bits(a) is Ok,
        arith_bits(s) is Ok,
        arith_bits(a).unwrap().len() == arith_bits(s).unwrap().len(),
        arith_bits(a).unwrap().take(3) == seq!['0', '1', '0'],
        arith_bits(s).unwrap().take(3) == seq!['0', '1', '1'],
        arith_bits(a).unwrap().skip(3) == arith_bits(s).unwrap().skip(3),
{
    lemma_opcode_bits();
    let f = register_field(register_code(a[1]), register_code(a[2]));
    let x = arith_bits(a).unwrap();
    let y = arith_bits(s).unwrap();
    assert(x == Opcode::Add.bits() + f);
    assert(y == Opcode::Subtract.bits() + f);
    assert(x.take(3) =~= seq!['0', '1', '0']);
    assert(y.take(3) =~= seq!['0', '1', '1']);
    assert(x.skip(3) =~= f);
    assert(y.skip(3) =~= f);
}

/// The immediate of an `ADD` or `SUB` line is encoded in exactly eight bits that
/// denote it, behind the mode bit `0` and the code of the register operand; an
/// immediate of 256 or more is refused.
pub proof fn lemma_arith_immediate(t: Seq<Seq<char>>)
    requires
        t.len() >= 3,
        is_number(t[1]),
        literal_value(t[1]) is Some,
    ensures
        literal_value(t[1]).unwrap() >= 256 ==> arith_bits(t) == Err::<Seq<char>, AsmError>(
            AsmError::ImmediateTooWide,
        ),
        literal_value(t[1]).unwrap() < 256 ==> {
            let field = immediate_field(literal_value(t[1]).unwrap());
            &&& arith_bits(t) == Ok::<Seq<char>, AsmError>(
                arith_opcode_bits(t[0]) + seq!['0'] + register_code(t[2]) + field,
            )
            &&& field.len() == 8
            &&& is_bit_string(field)
            &&& bits_value(field) == literal_value(t[1]).unwrap()
        },
{
    let v = literal_value(t[1]).unwrap();
    if v < 256 {
        lemma_immediate_field(v);
    }
}

/// The operand field of a branch is the thirteen-digit numeral of the offset that
/// its label resolves to, as long as the offset is below `2^13`; for a label without
/// a definition it is thirteen zeros.
pub proof fn lemma_branch_target(t: Seq<Seq<char>>, labels: Map<Seq<char>, u32>)
    requires
        t.len() >= 2,
    ensures
        jump_bits(t, labels) == Ok::<Seq<char>, AsmError>(
            jump_opcode_bits(t[0]) + label_field(resolve(labels, t[1]) as nat),
        ),
        bits_value(label_field(resolve(labels, t[1]) as nat)) == resolve(labels, t[1]),
        resolve(labels, t[1]) < 8192 ==> label_field(resolve(labels, t[1]) as nat).len() == 13,
        !labels.contains_key(t[1]) ==> label_field(resolve(labels, t[1]) as nat) == zeros(13),
{
    lemma_label_field(resolve(labels, t[1]) as nat);
}

/// A word of sixteen bits holds its opcode in the three high bits and its operand
/// field in the thirteen low bits.
pub proof fn lemma_word_layout(op: Opcode, field: Seq<char>)
    requires
        is_bit_string(field),
        field.len() == 13,
    ensures
        bits_value(field) < 8192,
        word_of(op.bits() + field) == Ok::<Seq<u8>, AsmError>(
            word_bytes(op.number() * 8192 + bits_value(field)),
        ),
{
    lemma2_to64();
    lemma_opcode_field(op);
    lemma_bits_value_bound(field);
    lemma_bits_value_concat(op.bits(), field);
    lemma_bit_string_concat(op.bits(), field);
    lemma_word_of_bit_string(op.bits() + field);
}

/// The word of two register operands: behind the opcode come the mode bit `1`, the
/// number of the second register, four zeros and the number of the first.
pub proof fn lemma_register_word(op: Opcode, n1: nat, n2: nat)
    requires
        n1 < 16,
        n2 < 16,
    ensures
        word_of(op.bits() + register_field(nibble(n1), nibble(n2))) == Ok::<Seq<u8>, AsmError>(
            word_bytes(op.number() * 8192 + 4096 + n2 * 256 + n1),
        ),
{
    lemma2_to64();
    lemma_binary_digits_denote(n1);
    lemma_binary_digits_fit(n1, 4);
    lemma_zero_padded(binary_digits(n1), 4);
    lemma_binary_digits_denote(n2);
    lemma_binary_digits_fit(n2, 4);
    lemma_zero_padded(binary_digits(n2), 4);
    let c1 = nibble(n1);
    let c2 = nibble(n2);
    let z = seq!['0', '0', '0', '0'];
    let one = seq!['1'];
    lemma_register_field(c1, c2);
    reveal_with_fuel(bits_value, 5);
    assert(bits_value(one) == 1) by {
        assert(one.drop_last() =~= Seq::<char>::empty());
    }
    assert(bits_value(z) == 0) by {
        lemma_zeros_value(4);
        assert(z =~= zeros(4));
    }
    lemma_bits_value_concat(one, c2);
    lemma_bits_value_concat(one + c2, z);
    lemma_bits_value_concat(one + c2 + z, c1);
    let f = register_field(c1, c2);
    assert(bits_value(f) == 4096 + n2 * 256 + n1);
    lemma_word_layout(op, f);
}

/// The word of an `ADD` or `SUB` with an immediate: behind the opcode come the mode
/// bit `0`, the number of the register and the immediate in eight bits.
pub proof fn lemma_immediate_word(op: Opcode, v: nat, n2: nat)
    requires
        v < 256,
        n2 < 16,
    ensures
        word_of(op.bits() + seq!['0'] + nibble(n2) + immediate_field(v)) == Ok::<
            Seq<u8>,
            AsmError,
        >(word_bytes(op.number() * 8192 + n2 * 256 + v)),
{
    lemma2_to64();
    lemma_binary_digits_denote(n2);
    lemma_binary_digits_fit(n2, 4);
    lemma_zero_padded(binary_digits(n2), 4);
    lemma_immediate_field(v);
    let c2 = nibble(n2);
    let zero = seq!['0'];
    let field = zero + c2 + immediate_field(v);
    assert(bits_value(zero) == 0) by {
        reveal_with_fuel(bits_value, 2);
        assert(zero.drop_last() =~= Seq::<char>::empty());
    }
    lemma_bits_value_concat(zero, c2);
    lemma_bits_value_concat(zero + c2, immediate_field(v));
    lemma_bit_string_concat(zero, c2);
    lemma_bit_string_concat(zero + c2, immediate_field(v));
    assert(bits_value(field) == n2 * 256 + v);
    assert(op.bits() + zero + c2 + immediate_field(v) =~= op.bits() + field);
    lemma_word_layout(op, field);
}

/// The word of a branch to an offset below `2^13` holds the offset in its thirteen
/// low bits. A branch to any offset from `2^13` on has no word.
pub proof fn lemma_branch_word(op: Opcode, offset: nat)
    requires
        op.number() >= 4,
    ensures
        offset < 8192 ==> word_of(op.bits() + label_field(offset)) == Ok::<Seq<u8>, AsmError>(
            word_bytes(op.number() * 8192 + offset),
        ),
        offset >= 8192 ==> word_of(op.bits() + label_field(offset)) == Err::<Seq<u8>, AsmError>(
            AsmError::WordOverflow,
        ),
{
    lemma2_to64();
    lemma_label_field(offset);
    let field = label_field(offset);
    if offset < 8192 {
        lemma_word_layout(op, field);
    } else {
        lemma_opcode_field(op);
        lemma_binary_digits_exceed(offset, 13);
        let len = field.len();
        assert(len >= 14);
        if len > 14 {
            lemma_pow2_strictly_increases(14, len);
        }
        lemma_bits_value_concat(op.bits(), field);
        lemma_bit_string_concat(op.bits(), field);
        lemma_word_of_bit_string(op.bits() + field);
        assert(op.number() * pow2(len) >= 0x10000) by (nonlinear_arith)
            requires
                op.number() >= 4,
                pow2(len) >= 16384,
        ;
    }
}

/// The word of a `STR` or `LDR` with an immediate holds the immediate in as many low
/// bits as its numeral has digits; what stands before it moves up with every digit.
pub proof fn lemma_unpadded_immediate(v: nat, n2: nat)
    requires
        n2 < 16,
    ensures
        bits_value(Opcode::Store.bits() + seq!['0'] + nibble(n2) + binary_digits(v)) == n2 * pow2(
            binary_digits(v).len(),
        ) + v,
        bits_value(Opcode::Load.bits() + seq!['0', '0', '0', '0', '0'] + binary_digits(v)) == pow2(
            5 + binary_digits(v).len(),
        ) + v,
{
    lemma2_to64();
    lemma_opcode_bits();
    lemma_binary_digits_denote(n2);
    lemma_binary_digits_fit(n2, 4);
    lemma_zero_padded(binary_digits(n2), 4);
    lemma_binary_digits_denote(v);
    let d = binary_digits(v);
    let k = d.len();
    let head = Opcode::Store.bits() + seq!['0'];
    assert(head =~= zeros(4));
    lemma_zeros_value(4);
    lemma_bits_value_concat(head, nibble(n2));
    lemma_bits_value_concat(head + nibble(n2), d);
    let lead = Opcode::Load.bits() + seq!['0', '0', '0', '0', '0'];
    assert(lead =~= seq!['0', '0', '1'] + zeros(5));
    lemma_zeros_value(5);
    lemma_bits_value_concat(seq!['0', '0', '1'], zeros(5));
    reveal_with_fuel(bits_value, 4);
    assert(bits_value(seq!['0', '0', '1']) == 1) by {
        let s = seq!['0', '0', '1'];
        assert(s.drop_last() =~= seq!['0', '0']);
        assert(s.drop_last().drop_last() =~= seq!['0']);
        assert(s.drop_last().drop_last().drop_last() =~= Seq::<char>::empty());
    }
    assert(zeros(5).len() == 5);
    assert(pow2(5) == 32);
    assert(bits_value(zeros(5)) == 0);
    assert(bits_value(seq!['0', '0', '1'] + zeros(5)) == 1 * pow2(5) + 0);
    assert(bits_value(lead) == 32);
    lemma_bits_value_concat(lead, d);
    lemma_pow2_adds(5, k);
}

/// Whatever the tokens, the bits that an encoder makes are binary digits and there
/// is at least one of them; those of `ADD` and `SUB` are never more than sixteen.
pub proof fn lemma_encoded_bits(t: Seq<Seq<char>>, labels: Map<Seq<char>, u32>)
    ensures
        store_bits(t) is Ok ==> is_bit_string(store_bits(t).unwrap()) && store_bits(
            t,
        ).unwrap().len() >= 1,
        load_bits(t) is Ok ==> is_bit_string(load_bits(t).unwrap()) && load_bits(t).unwrap().len()
            >= 1,
        arith_bits(t) is Ok ==> is_bit_string(arith_bits(t).unwrap()) && 1 <= arith_bits(
            t,
        ).unwrap().len() <= 16,
        jump_bits(t, labels) is Ok ==> is_bit_string(jump_bits(t, labels).unwrap()) && jump_bits(
            t,
            labels,
        ).unwrap().len() >= 1,
{
    lemma_opcode_bits();
    if t.len() >= 2 {
        lemma_register_code(t[1]);
        if literal_value(t[1]) is Some {
            lemma_binary_digits_denote(literal_value(t[1]).unwrap());
        }
        let field = label_field(resolve(labels, t[1]) as nat);
        lemma_label_field(resolve(labels, t[1]) as nat);
        lemma_bit_string_concat(jump_opcode_bits(t[0]), field);
        if store_bits(t) is Ok || arith_bits(t) is Ok {
            lemma_register_code(t[2]);
            let f = register_field(register_code(t[1]), register_code(t[2]));
            lemma_register_field(register_code(t[1]), register_code(t[2]));
            if is_number(t[1]) {
                let v = literal_value(t[1]).unwrap();
                lemma_bit_string_concat(seq!['0'], register_code(t[2]));
                lemma_bit_string_concat(Opcode::Store.bits(), seq!['0']);
                lemma_bit_string_concat(Opcode::Store.bits() + seq!['0'], register_code(t[2]));
                lemma_bit_string_concat(
                    Opcode::Store.bits() + seq!['0'] + register_code(t[2]),
                    binary_digits(v),
                );
                if v < 256 {
                    lemma_immediate_field(v);
                    lemma_bit_string_concat(arith_opcode_bits(t[0]), seq!['0']);
                    lemma_bit_string_concat(
                        arith_opcode_bits(t[0]) + seq!['0'],
                        register_code(t[2]),
                    );
                    lemma_bit_string_concat(
                        arith_opcode_bits(t[0]) + seq!['0'] + register_code(t[2]),
                        immediate_field(v),
                    );
                }
            } else {
                lemma_bit_string_concat(Opcode::Store.bits(), f);
                lemma_bit_string_concat(arith_opcode_bits(t[0]), f);
            }
        }
        if is_number(t[1]) {
            if literal_value(t[1]) is Some {
                let v = literal_value(t[1]).unwrap();
                lemma_bit_string_concat(Opcode::Load.bits(), seq!['0', '0', '0', '0', '0']);
                lemma_bit_string_concat(
                    Opcode::Load.bits() + seq!['0', '0', '0', '0', '0'],
                    binary_digits(v),
                );
            }
        } else {
            let z = seq!['0', '0', '0', '0', '0', '0', '0', '0'];
            lemma_bit_string_concat(Opcode::Load.bits(), seq!['1']);
            lemma_bit_string_concat(Opcode::Load.bits() + seq!['1'], z);
            lemma_bit_string_concat(Opcode::Load.bits() + seq!['1'] + z, register_code(t[1]));
        }
    }
}

} // verus!
