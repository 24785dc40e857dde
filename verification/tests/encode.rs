use eba_asm::encode::{add_sub, jump, load, store};
use eba_asm::error::AsmError;
use eba_asm::labels::LabelTable;

fn stored(line: &str) -> Result<Vec<u8>, AsmError> {
    let mut bytes = 0;
    let mut out = Vec::new();
    store(&mut bytes, line, &mut out).map(|()| out)
}

fn loaded(line: &str) -> Result<Vec<u8>, AsmError> {
    let mut bytes = 0;
    let mut out = Vec::new();
    load(&mut bytes, line, &mut out).map(|()| out)
}

fn computed(line: &str) -> Result<Vec<u8>, AsmError> {
    let mut bytes = 0;
    let mut out = Vec::new();
    add_sub(&mut bytes, line, &mut out).map(|()| out)
}

fn branched(line: &str, labels: &LabelTable) -> Result<Vec<u8>, AsmError> {
    let mut bytes = 0;
    let mut out = Vec::new();
    jump(&mut bytes, line, &mut out, labels).map(|()| out)
}

#[test]
fn store_of_registers() {
    assert_eq!(stored("STR A B"), Ok(vec![0x14, 0x03]));
    assert_eq!(stored("STR AR M"), Ok(vec![0x1f, 0x00]));
    assert_eq!(stored("STR M AR"), Ok(vec![0x10, 0x0f]));
    assert_eq!(stored("STR C1 C2"), Ok(vec![0x12, 0x01]));
}

#[test]
fn store_of_an_immediate_is_not_padded() {
    assert_eq!(stored("STR 3 A"), Ok(vec![0x00, 0x0f]));
    assert_eq!(stored("STR 0 A"), Ok(vec![0x00, 0x06]));
    assert_eq!(stored("STR 1 A"), Ok(vec![0x00, 0x07]));
    assert_eq!(stored("STR 255 M"), Ok(vec![0x0f, 0xff]));
    assert_eq!(stored("STR 256 M"), Ok(vec![0x1f, 0x00]));
    assert_eq!(stored("STR 4095 AR"), Ok(vec![0x0f, 0xff]));
    assert_eq!(stored("STR 65535 AR"), Ok(vec![0xff, 0xff]));
}

#[test]
fn store_overflows_the_word() {
    assert_eq!(stored("STR 4096 M"), Err(AsmError::WordOverflow));
    assert_eq!(stored("STR 65536 AR"), Err(AsmError::WordOverflow));
    assert_eq!(stored("STR 2147483647 A"), Err(AsmError::WordOverflow));
}

#[test]
fn store_needs_two_operands() {
    assert_eq!(stored("STR"), Err(AsmError::MissingOperand));
    assert_eq!(stored("STR 3"), Err(AsmError::MissingOperand));
    assert_eq!(stored("STR A"), Err(AsmError::MissingOperand));
    assert_eq!(stored(""), Err(AsmError::MissingOperand));
    assert_eq!(stored("STR 99999999999"), Err(AsmError::MissingOperand));
}

#[test]
fn store_refuses_a_bad_immediate() {
    assert_eq!(stored("STR  A"), Err(AsmError::InvalidLiteral));
    assert_eq!(stored("STR 2147483648 A"), Err(AsmError::InvalidLiteral));
    assert_eq!(stored("STR 99999999999999999999 A"), Err(AsmError::InvalidLiteral));
}

#[test]
fn store_ignores_what_follows_its_operands() {
    assert_eq!(stored("STR A B C D"), Ok(vec![0x14, 0x03]));
    assert_eq!(stored("  STR A B  "), Ok(vec![0x14, 0x03]));
    assert_eq!(stored("\tSTR A B\r"), Ok(vec![0x14, 0x03]));
}

#[test]
fn store_does_not_look_at_the_mnemonic() {
    assert_eq!(stored("XYZ A B"), Ok(vec![0x14, 0x03]));
    assert_eq!(stored("LDR 3 A"), Ok(vec![0x00, 0x0f]));
}

#[test]
fn unknown_register_leaves_its_field_empty() {
    assert_eq!(stored("STR Q A"), Ok(vec![0x01, 0x30]));
    assert_eq!(stored("STR A Q"), Ok(vec![0x01, 0x03]));
    assert_eq!(stored("STR 3 Q"), Ok(vec![0x00, 0x03]));
    assert_eq!(loaded("LDR Q"), Ok(vec![0x03, 0x00]));
    assert_eq!(computed("ADD Q A"), Ok(vec![0x05, 0x30]));
    assert_eq!(computed("SUB 3 Q"), Ok(vec![0x06, 0x03]));
}

#[test]
fn load_of_a_register() {
    assert_eq!(loaded("LDR A"), Ok(vec![0x30, 0x03]));
    assert_eq!(loaded("LDR AR"), Ok(vec![0x30, 0x00]));
    assert_eq!(loaded("LDR M"), Ok(vec![0x30, 0x0f]));
}

#[test]
fn load_of_an_immediate_is_not_padded() {
    assert_eq!(loaded("LDR 5"), Ok(vec![0x01, 0x05]));
    assert_eq!(loaded("LDR 0"), Ok(vec![0x00, 0x40]));
    assert_eq!(loaded("LDR 1"), Ok(vec![0x00, 0x41]));
    assert_eq!(loaded("LDR 255"), Ok(vec![0x20, 0xff]));
    assert_eq!(loaded("LDR 1023"), Ok(vec![0x83, 0xff]));
}

#[test]
fn load_overflows_the_word() {
    assert_eq!(loaded("LDR 1024"), Err(AsmError::WordOverflow));
    assert_eq!(loaded("LDR 2147483647"), Err(AsmError::WordOverflow));
}

#[test]
fn load_needs_an_operand() {
    assert_eq!(loaded("LDR"), Err(AsmError::MissingOperand));
    assert_eq!(loaded("   LDR   "), Err(AsmError::MissingOperand));
    assert_eq!(loaded(""), Err(AsmError::MissingOperand));
}

#[test]
fn load_refuses_a_bad_immediate() {
    assert_eq!(loaded("LDR  5"), Err(AsmError::InvalidLiteral));
    assert_eq!(loaded("LDR 2147483648"), Err(AsmError::InvalidLiteral));
}

#[test]
fn add_and_subtract_of_registers() {
    assert_eq!(computed("ADD A B"), Ok(vec![0x54, 0x03]));
    assert_eq!(computed("SUB A B"), Ok(vec![0x74, 0x03]));
    assert_eq!(computed("ADD M AR"), Ok(vec![0x50, 0x0f]));
    assert_eq!(computed("SUB AR M"), Ok(vec![0x7f, 0x00]));
}

#[test]
fn add_and_subtract_differ_in_the_opcode_only() {
    for operands in ["A B", "AR M", "C1 C2", "L K", "M M"] {
        let add = computed(&format!("ADD {}", operands)).unwrap();
        let sub = computed(&format!("SUB {}", operands)).unwrap();
        assert_eq!(add[0] >> 5, 0b010);
        assert_eq!(sub[0] >> 5, 0b011);
        assert_eq!(add[0] & 0x1f, sub[0] & 0x1f);
        assert_eq!(add[1], sub[1]);
    }
}

#[test]
fn register_operands_are_laid_out_as_in_store() {
    for operands in ["A B", "AR M", "C1 C2"] {
        let add = computed(&format!("ADD {}", operands)).unwrap();
        let str = stored(&format!("STR {}", operands)).unwrap();
        assert_eq!(add[0] & 0x1f, str[0] & 0x1f);
        assert_eq!(add[1], str[1]);
    }
}

#[test]
fn arithmetic_immediate_fills_eight_bits() {
    assert_eq!(computed("ADD 3 A"), Ok(vec![0x43, 0x03]));
    assert_eq!(computed("SUB 3 A"), Ok(vec![0x63, 0x03]));
    assert_eq!(computed("ADD 0 A"), Ok(vec![0x43, 0x00]));
    assert_eq!(computed("ADD 1 AR"), Ok(vec![0x40, 0x01]));
    assert_eq!(computed("ADD 255 M"), Ok(vec![0x4f, 0xff]));
    assert_eq!(computed("SUB 128 B"), Ok(vec![0x64, 0x80]));
    assert_eq!(computed("ADD 007 A"), Ok(vec![0x43, 0x07]));
}

#[test]
fn arithmetic_immediate_is_the_low_byte() {
    for v in 0u32..256 {
        let word = computed(&format!("ADD {} B", v)).unwrap();
        assert_eq!(word, vec![0x44, v as u8]);
    }
}

#[test]
fn arithmetic_immediate_past_eight_bits_is_refused() {
    assert_eq!(computed("ADD 256 A"), Err(AsmError::ImmediateTooWide));
    assert_eq!(computed("SUB 256 A"), Err(AsmError::ImmediateTooWide));
    assert_eq!(computed("ADD 300 A"), Err(AsmError::ImmediateTooWide));
    assert_eq!(computed("ADD 65536 A"), Err(AsmError::ImmediateTooWide));
    assert_eq!(computed("SUB 2147483647 A"), Err(AsmError::ImmediateTooWide));
}

#[test]
fn arithmetic_needs_two_operands() {
    assert_eq!(computed("ADD"), Err(AsmError::MissingOperand));
    assert_eq!(computed("ADD 3"), Err(AsmError::MissingOperand));
    assert_eq!(computed("SUB A"), Err(AsmError::MissingOperand));
    assert_eq!(computed("ADD 300"), Err(AsmError::MissingOperand));
}

#[test]
fn arithmetic_refuses_a_bad_immediate() {
    assert_eq!(computed("ADD  A"), Err(AsmError::InvalidLiteral));
    assert_eq!(computed("ADD 2147483648 A"), Err(AsmError::InvalidLiteral));
}

#[test]
fn arithmetic_under_another_mnemonic_has_no_opcode() {
    assert_eq!(computed("XYZ A B"), Ok(vec![0x14, 0x03]));
    assert_eq!(computed("XYZ 3 A"), Ok(vec![0x03, 0x03]));
}

#[test]
fn branch_goes_to_the_offset_of_its_label() {
    let mut labels = LabelTable::new();
    labels.define_label(String::from("L1"), 4);
    labels.define_label(String::from("TOP"), 8191);
    assert_eq!(branched("JEQ L1", &labels), Ok(vec![0x80, 0x04]));
    assert_eq!(branched("JLT L1", &labels), Ok(vec![0xa0, 0x04]));
    assert_eq!(branched("JGT L1", &labels), Ok(vec![0xc0, 0x04]));
    assert_eq!(branched("JNE L1", &labels), Ok(vec![0xe0, 0x04]));
    assert_eq!(branched("JEQ TOP", &labels), Ok(vec![0x9f, 0xff]));
    assert_eq!(branched("JNE TOP", &labels), Ok(vec![0xff, 0xff]));
}

#[test]
fn branch_to_an_undefined_label_goes_to_zero() {
    let labels = LabelTable::new();
    assert_eq!(branched("JEQ L1", &labels), Ok(vec![0x80, 0x00]));
    assert_eq!(branched("JLT L1", &labels), Ok(vec![0xa0, 0x00]));
    assert_eq!(branched("JGT L1", &labels), Ok(vec![0xc0, 0x00]));
    assert_eq!(branched("JNE L1", &labels), Ok(vec![0xe0, 0x00]));
}

#[test]
fn branch_past_thirteen_bits_overflows_the_word() {
    let mut labels = LabelTable::new();
    labels.define_label(String::from("FAR"), 8192);
    labels.define_label(String::from("END"), u32::MAX);
    assert_eq!(branched("JEQ FAR", &labels), Err(AsmError::WordOverflow));
    assert_eq!(branched("JNE END", &labels), Err(AsmError::WordOverflow));
}

#[test]
fn branch_needs_a_label() {
    let labels = LabelTable::new();
    assert_eq!(branched("JEQ", &labels), Err(AsmError::MissingOperand));
    assert_eq!(branched("  JNE  ", &labels), Err(AsmError::MissingOperand));
}

#[test]
fn branch_takes_any_token_as_label_name() {
    let mut labels = LabelTable::new();
    labels.define_label(String::from("12"), 2);
    labels.define_label(String::from(""), 6);
    assert_eq!(branched("JEQ 12", &labels), Ok(vec![0x80, 0x02]));
    assert_eq!(branched("JEQ  X", &labels), Ok(vec![0x80, 0x06]));
}

#[test]
fn branch_under_another_mnemonic_has_no_opcode() {
    let mut labels = LabelTable::new();
    labels.define_label(String::from("L1"), 4);
    assert_eq!(branched("XYZ L1", &labels), Ok(vec![0x00, 0x04]));
    assert_eq!(branched("ADD L1", &labels), Ok(vec![0x00, 0x04]));
}

#[test]
fn every_word_advances_the_counter_by_two() {
    let labels = LabelTable::new();
    let mut bytes = 10;
    let mut out = vec![0u8; 10];
    assert_eq!(store(&mut bytes, "STR A B", &mut out), Ok(()));
    assert_eq!((bytes, out.len()), (12, 12));
    assert_eq!(load(&mut bytes, "LDR 5", &mut out), Ok(()));
    assert_eq!((bytes, out.len()), (14, 14));
    assert_eq!(add_sub(&mut bytes, "ADD 1 A", &mut out), Ok(()));
    assert_eq!((bytes, out.len()), (16, 16));
    assert_eq!(jump(&mut bytes, "JEQ X", &mut out, &labels), Ok(()));
    assert_eq!((bytes, out.len()), (18, 18));
    assert_eq!(&out[10..], &[0x14, 0x03, 0x01, 0x05, 0x43, 0x01, 0x80, 0x00]);
    assert_eq!(&out[..10], &[0u8; 10]);
}

#[test]
fn a_failing_line_changes_nothing() {
    let mut labels = LabelTable::new();
    labels.define_label(String::from("FAR"), 8192);
    let mut bytes = 6;
    let mut out = vec![1, 2, 3];
    assert_eq!(store(&mut bytes, "STR 3", &mut out), Err(AsmError::MissingOperand));
    assert_eq!(load(&mut bytes, "LDR 1024", &mut out), Err(AsmError::WordOverflow));
    assert_eq!(add_sub(&mut bytes, "ADD 256 A", &mut out), Err(AsmError::ImmediateTooWide));
    assert_eq!(jump(&mut bytes, "JEQ FAR", &mut out, &labels), Err(AsmError::WordOverflow));
    assert_eq!(bytes, 6);
    assert_eq!(out, vec![1, 2, 3]);
}

#[test]
fn the_counter_does_not_wrap() {
    let labels = LabelTable::new();
    let mut out = Vec::new();
    let mut bytes = u32::MAX - 1;
    assert_eq!(store(&mut bytes, "STR A B", &mut out), Err(AsmError::CounterOverflow));
    assert_eq!(load(&mut bytes, "LDR 5", &mut out), Err(AsmError::CounterOverflow));
    assert_eq!(add_sub(&mut bytes, "ADD 1 A", &mut out), Err(AsmError::CounterOverflow));
    assert_eq!(jump(&mut bytes, "JEQ X", &mut out, &labels), Err(AsmError::CounterOverflow));
    assert_eq!(bytes, u32::MAX - 1);
    assert!(out.is_empty());
    bytes = u32::MAX;
    assert_eq!(load(&mut bytes, "LDR 5", &mut out), Err(AsmError::CounterOverflow));
    bytes = u32::MAX - 2;
    assert_eq!(load(&mut bytes, "LDR 5", &mut out), Ok(()));
    assert_eq!(bytes, u32::MAX);
    assert_eq!(out, vec![0x01, 0x05]);
}

#[test]
fn a_full_counter_counts_before_a_wide_word() {
    let mut out = Vec::new();
    let mut bytes = u32::MAX;
    assert_eq!(load(&mut bytes, "LDR 1024", &mut out), Err(AsmError::CounterOverflow));
    assert_eq!(load(&mut bytes, "LDR", &mut out), Err(AsmError::MissingOperand));
    assert_eq!(add_sub(&mut bytes, "ADD 256 A", &mut out), Err(AsmError::ImmediateTooWide));
}
