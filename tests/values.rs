use forget_hir::identifier::MutableRange;
use forget_hir::value::{Effect, InstructionKind, Number, PrimitiveValue, CANONICAL_NAN_BITS};

fn num(v: f64) -> Number {
    Number::from_bits(v.to_bits())
}

#[test]
fn nan_patterns_share_one_representation() {
    let patterns = [f64::NAN.to_bits(), 0x7ff0_0000_0000_0001, 0xfff8_0000_0000_0000, 0x7fff_ffff_ffff_ffff];
    for p in patterns {
        assert_eq!(Number::from_bits(p).to_bits(), CANONICAL_NAN_BITS);
    }
    assert_eq!(num(f64::NAN), Number::from_bits(0xfff0_0000_0000_0001));
    assert_eq!(CANONICAL_NAN_BITS, f64::NAN.to_bits());
}

#[test]
fn non_nan_bits_are_kept() {
    assert_eq!(num(1.5).to_bits(), 1.5f64.to_bits());
    assert_eq!(num(f64::INFINITY).to_bits(), f64::INFINITY.to_bits());
    assert_eq!(num(-0.0).to_bits(), 0x8000_0000_0000_0000);
}

#[test]
fn number_equality() {
    assert!(num(f64::NAN).equals(num(f64::NAN)));
    assert!(num(0.0).equals(num(-0.0)));
    assert!(num(-0.0).equals(num(0.0)));
    assert!(num(1.0).equals(num(1.0)));
    assert!(!num(1.0).equals(num(2.0)));
    assert!(!num(f64::NAN).equals(num(0.0)));
    assert!(num(1.0).not_equals(num(2.0)));
    assert!(!num(0.0).not_equals(num(-0.0)));
}

#[test]
fn number_truthiness() {
    assert!(!num(0.0).is_truthy());
    assert!(!num(-0.0).is_truthy());
    assert!(!num(f64::NAN).is_truthy());
    assert!(num(1.0).is_truthy());
    assert!(num(-3.5).is_truthy());
    assert!(num(f64::INFINITY).is_truthy());
}

#[test]
fn primitive_truthiness() {
    assert!(PrimitiveValue::Boolean(true).is_truthy());
    assert!(!PrimitiveValue::Boolean(false).is_truthy());
    assert!(!PrimitiveValue::String(String::new()).is_truthy());
    assert!(PrimitiveValue::String("a".to_string()).is_truthy());
    assert!(!PrimitiveValue::Null.is_truthy());
    assert!(!PrimitiveValue::Undefined.is_truthy());
    assert!(!PrimitiveValue::Number(num(0.0)).is_truthy());
    assert!(PrimitiveValue::Number(num(2.0)).is_truthy());
}

#[test]
fn loose_equality_of_null_and_undefined() {
    assert_eq!(PrimitiveValue::Null.loosely_equals(&PrimitiveValue::Undefined), Some(true));
    assert_eq!(PrimitiveValue::Undefined.loosely_equals(&PrimitiveValue::Null), Some(true));
    assert_eq!(PrimitiveValue::Null.loosely_equals(&PrimitiveValue::Null), Some(true));
    assert_eq!(PrimitiveValue::Undefined.not_loosely_equals(&PrimitiveValue::Null), Some(false));
}

#[test]
fn strict_equality_of_null_and_undefined() {
    assert!(!PrimitiveValue::Null.strictly_equals(&PrimitiveValue::Undefined));
    assert!(!PrimitiveValue::Undefined.strictly_equals(&PrimitiveValue::Null));
    assert!(PrimitiveValue::Undefined.strictly_equals(&PrimitiveValue::Undefined));
    assert!(PrimitiveValue::Null.not_strictly_equals(&PrimitiveValue::Undefined));
}

#[test]
fn differing_kinds_are_undecided() {
    let one = PrimitiveValue::Number(num(1.0));
    let s = PrimitiveValue::String("1".to_string());
    assert_eq!(one.loosely_equals(&s), None);
    assert_eq!(one.not_loosely_equals(&s), None);
    assert_eq!(PrimitiveValue::Boolean(true).loosely_equals(&one), None);
    assert_eq!(PrimitiveValue::Null.loosely_equals(&PrimitiveValue::Boolean(false)), None);
    assert!(!one.strictly_equals(&s));
    assert!(one.not_strictly_equals(&s));
}

#[test]
fn same_kind_equality() {
    let a = PrimitiveValue::String("ab".to_string());
    let b = PrimitiveValue::String("ab".to_string());
    let c = PrimitiveValue::String("ac".to_string());
    assert_eq!(a.loosely_equals(&b), Some(true));
    assert_eq!(a.loosely_equals(&c), Some(false));
    assert!(a.strictly_equals(&b));
    assert!(!a.strictly_equals(&c));
    let nan = PrimitiveValue::Number(num(f64::NAN));
    assert!(nan.strictly_equals(&PrimitiveValue::Number(num(f64::NAN))));
    assert!(PrimitiveValue::Number(num(0.0)).strictly_equals(&PrimitiveValue::Number(num(-0.0))));
    assert_eq!(PrimitiveValue::Boolean(true).loosely_equals(&PrimitiveValue::Boolean(false)), Some(false));
}

#[test]
fn effects_that_mutate() {
    assert!(Effect::Capture.is_mutable());
    assert!(Effect::Store.is_mutable());
    assert!(Effect::ConditionallyMutate.is_mutable());
    assert!(Effect::Mutate.is_mutable());
    assert!(!Effect::Read.is_mutable());
    assert!(!Effect::Freeze.is_mutable());
}

#[test]
fn printed_names() {
    assert_eq!(Effect::ConditionallyMutate.name(), "mutate?");
    assert_eq!(Effect::Capture.name(), "capture");
    assert_eq!(Effect::Freeze.name(), "freeze");
    assert_eq!(InstructionKind::Reassign.name(), "Reassign");
    assert_eq!(InstructionKind::Let.name(), "Let");
    assert_eq!(InstructionKind::Const.name(), "Const");
}

#[test]
fn mutable_range_starts_empty() {
    let r = MutableRange::new();
    assert_eq!(r.start.0, 0);
    assert_eq!(r.end.0, 0);
    let d = MutableRange::default();
    assert_eq!(d, r);
}
