use eba_asm::labels::{get_label, LabelTable};

#[test]
fn undefined_label_resolves_to_zero() {
    let labels = LabelTable::new();
    assert_eq!(labels.resolve_label("L1"), 0);
    assert_eq!(labels.resolve_label(""), 0);
}

#[test]
fn defined_label_resolves_to_its_offset() {
    let mut labels = LabelTable::new();
    labels.define_label(String::from("L1"), 4);
    labels.define_label(String::from("L2"), 10);
    assert_eq!(labels.resolve_label("L1"), 4);
    assert_eq!(labels.resolve_label("L2"), 10);
    assert_eq!(labels.resolve_label("L3"), 0);
    assert_eq!(labels.resolve_label("l1"), 0);
}

#[test]
fn last_definition_wins() {
    let mut labels = LabelTable::new();
    labels.define_label(String::from("L1"), 4);
    labels.define_label(String::from("L1"), 12);
    assert_eq!(labels.resolve_label("L1"), 12);
    labels.define_label(String::from("L1"), 0);
    assert_eq!(labels.resolve_label("L1"), 0);
}

#[test]
fn label_field_has_thirteen_digits() {
    let mut labels = LabelTable::new();
    labels.define_label(String::from("L1"), 4);
    labels.define_label(String::from("SIX"), 6);
    labels.define_label(String::from("TOP"), 8191);
    assert_eq!(get_label("L1", &labels), "0000000000100");
    assert_eq!(get_label("SIX", &labels), "0000000000110");
    assert_eq!(get_label("TOP", &labels), "1111111111111");
}

#[test]
fn label_field_of_undefined_label_is_all_zeros() {
    let labels = LabelTable::new();
    assert_eq!(get_label("NOWHERE", &labels), "0000000000000");
}

#[test]
fn label_field_of_offset_zero_is_all_zeros() {
    let mut labels = LabelTable::new();
    labels.define_label(String::from("START"), 0);
    assert_eq!(get_label("START", &labels), "0000000000000");
}

#[test]
fn label_field_grows_past_thirteen_bits() {
    let mut labels = LabelTable::new();
    labels.define_label(String::from("FAR"), 8192);
    labels.define_label(String::from("END"), u32::MAX);
    assert_eq!(get_label("FAR", &labels), "10000000000000");
    assert_eq!(get_label("END", &labels), "11111111111111111111111111111111");
}
