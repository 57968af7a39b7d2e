//! Tri-state bit strings and model extraction.

use netsat::cnf::{Cnf, MaybeBits};

#[test]
fn parse_valid_bit_string() {
    let mb = MaybeBits::from_text("10x").expect("valid bit string");
    assert_eq!(mb.bits, vec![Some(true), Some(false), None]);
}

#[test]
fn parse_empty_bit_string() {
    let mb = MaybeBits::from_text("").expect("empty string is valid");
    assert!(mb.bits.is_empty());
}

#[test]
fn parse_rejects_other_bytes() {
    assert!(MaybeBits::from_text("102").is_err());
    assert!(MaybeBits::from_text("abc").is_err());
    assert!(MaybeBits::from_text("1 0").is_err());
    assert!(MaybeBits::from_text("X").is_err());
    let message = MaybeBits::from_text("2").unwrap_err();
    assert_eq!(message, "bits must be '1', '0', 'x'");
}

#[test]
fn get_bits_renders_tri_state_values() {
    // 1 forced true, 2 forced false, 3 never mentioned: unknown.
    let mut cnf = Cnf::default();
    cnf.add_clause(vec![1]);
    cnf.add_clause(vec![-2]);
    let model = cnf.dpll().expect("two units are satisfiable");
    let rendered = model.get_bits(&vec![1, 2, 3]);
    assert_eq!(rendered.bits, vec![Some(true), Some(false), None]);
}

#[test]
fn get_bit_tri_state() {
    let mut cnf = Cnf::default();
    cnf.add_clause(vec![7]);
    let model = cnf.dpll().expect("satisfiable");
    assert_eq!(model.get_bit(7), Some(true));
    assert_eq!(model.get_bit(8), None);
}

#[test]
fn model_insert_and_contains() {
    let mut model = netsat::cnf::Model::default();
    model.insert(3);
    model.insert(-5);
    model.insert(3);
    assert!(model.contains(3));
    assert!(model.contains(-5));
    assert!(!model.contains(-3));
    assert!(!model.contains(5));
    assert_eq!(model.get_bit(3), Some(true));
    assert_eq!(model.get_bit(5), Some(false));
}
