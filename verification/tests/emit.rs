use eba_asm::emit::from_binary;
use eba_asm::error::AsmError;

fn emit(bits: &str) -> Result<Vec<u8>, AsmError> {
    let mut out = Vec::new();
    eba_asm::emit::write(bits, &mut out).map(|()| out)
}

#[test]
fn sixteen_bits_make_two_bytes_high_byte_first() {
    assert_eq!(emit("0010000000000101"), Ok(vec![0x20, 0x05]));
    assert_eq!(emit("1000000000000100"), Ok(vec![0x80, 0x04]));
    assert_eq!(emit("0000000000000000"), Ok(vec![0x00, 0x00]));
    assert_eq!(emit("1111111111111111"), Ok(vec![0xff, 0xff]));
    assert_eq!(emit("0000000100000000"), Ok(vec![0x01, 0x00]));
    assert_eq!(emit("0000000011111111"), Ok(vec![0x00, 0xff]));
}

#[test]
fn every_hexadecimal_digit_is_decoded() {
    assert_eq!(emit("0000000100100011"), Ok(vec![0x01, 0x23]));
    assert_eq!(emit("0100010101100111"), Ok(vec![0x45, 0x67]));
    assert_eq!(emit("1000100110101011"), Ok(vec![0x89, 0xab]));
    assert_eq!(emit("1100110111101111"), Ok(vec![0xcd, 0xef]));
}

#[test]
fn short_bit_strings_are_words_too() {
    assert_eq!(emit("0"), Ok(vec![0x00, 0x00]));
    assert_eq!(emit("1"), Ok(vec![0x00, 0x01]));
    assert_eq!(emit("101"), Ok(vec![0x00, 0x05]));
    assert_eq!(emit("00100000101"), Ok(vec![0x01, 0x05]));
}

#[test]
fn leading_zeros_do_not_count() {
    assert_eq!(emit("00000000000000000000000000000000000000001"), Ok(vec![0x00, 0x01]));
    assert_eq!(emit("01111111111111111"), Ok(vec![0xff, 0xff]));
}

#[test]
fn a_plus_may_lead_the_numeral() {
    assert_eq!(emit("+101"), Ok(vec![0x00, 0x05]));
    assert_eq!(emit("+0"), Ok(vec![0x00, 0x00]));
}

#[test]
fn what_is_no_numeral_is_refused() {
    for bits in ["", "+", "++1", "-1", "102", "2", "1 ", " 1", "1+", "0b1", "1_0", "x"] {
        assert_eq!(emit(bits), Err(AsmError::InvalidBitString), "bits {:?}", bits);
    }
}

#[test]
fn more_than_sixteen_bits_overflow_the_word() {
    assert_eq!(emit("10000000000000000"), Err(AsmError::WordOverflow));
    assert_eq!(emit("11111111111111111"), Err(AsmError::WordOverflow));
    assert_eq!(emit("100000000000000000000"), Err(AsmError::WordOverflow));
    assert_eq!(emit("11111111111111111111111111111111"), Err(AsmError::WordOverflow));
    assert_eq!(emit("100000000000000000000000000000000"), Err(AsmError::WordOverflow));
    assert_eq!(
        emit("1111111111111111111111111111111111111111111111111111111111111111111111"),
        Err(AsmError::WordOverflow)
    );
}

#[test]
fn a_bad_digit_counts_even_behind_an_overflow() {
    assert_eq!(
        emit("1111111111111111111111111111111111111111x"),
        Err(AsmError::InvalidBitString)
    );
}

#[test]
fn words_are_appended_to_what_is_there() {
    let mut out = vec![0xaa, 0xbb];
    assert_eq!(eba_asm::emit::write("0001001000110100", &mut out), Ok(()));
    assert_eq!(out, vec![0xaa, 0xbb, 0x12, 0x34]);
    assert_eq!(eba_asm::emit::write("1", &mut out), Ok(()));
    assert_eq!(out, vec![0xaa, 0xbb, 0x12, 0x34, 0x00, 0x01]);
}

#[test]
fn a_refused_word_leaves_the_image_alone() {
    let mut out = vec![0xaa, 0xbb];
    assert_eq!(
        eba_asm::emit::write("10000000000000000", &mut out),
        Err(AsmError::WordOverflow)
    );
    assert_eq!(out, vec![0xaa, 0xbb]);
    assert_eq!(eba_asm::emit::write("12", &mut out), Err(AsmError::InvalidBitString));
    assert_eq!(out, vec![0xaa, 0xbb]);
}

#[test]
fn numerals_are_read_in_base_two() {
    assert_eq!(from_binary("0"), Ok(0));
    assert_eq!(from_binary("101"), Ok(5));
    assert_eq!(from_binary("+101"), Ok(5));
    assert_eq!(from_binary("10000000000000000"), Ok(65536));
    assert_eq!(from_binary("11111111111111111111111111111111"), Ok(u32::MAX));
    assert_eq!(from_binary("0011111111111111111111111111111111"), Ok(u32::MAX));
}

#[test]
fn numerals_past_thirty_two_bits_overflow() {
    assert_eq!(from_binary("100000000000000000000000000000000"), Err(AsmError::WordOverflow));
}

#[test]
fn numerals_need_binary_digits() {
    assert_eq!(from_binary(""), Err(AsmError::InvalidBitString));
    assert_eq!(from_binary("+"), Err(AsmError::InvalidBitString));
    assert_eq!(from_binary("12"), Err(AsmError::InvalidBitString));
}

#[test]
fn words_agree_with_hexadecimal_decoding() {
    let mut v: u32 = 0;
    while v < 0x10000 {
        let bits = format!("{:b}", v);
        let expected = hex::decode(format!("{:04x}", v)).unwrap();
        assert_eq!(emit(&bits), Ok(expected), "value {}", v);
        let padded = format!("{:016b}", v);
        assert_eq!(emit(&padded), Ok(vec![(v >> 8) as u8, (v & 0xff) as u8]));
        v += 251;
    }
}

#[test]
fn numerals_agree_with_the_standard_reader() {
    for bits in ["0", "1", "+1", "0101", "1111111111111111", "", "+", "-1", "12", "1 1",
        "11111111111111111111111111111111", "111111111111111111111111111111111"]
    {
        assert_eq!(from_binary(bits).ok(), u32::from_str_radix(bits, 2).ok(), "bits {:?}", bits);
    }
}
