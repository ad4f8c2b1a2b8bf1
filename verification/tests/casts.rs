use lib::casts::{address_needs_cast, needs_cast, Type};

#[test]
fn identical_types_need_no_cast() {
    assert!(!needs_cast(&Type::Unsigned(32), &Type::Unsigned(32)));
}

#[test]
fn integer_conversions_are_implicit() {
    assert!(!needs_cast(&Type::Unsigned(32), &Type::Signed(64)));
    assert!(!needs_cast(&Type::Signed(64), &Type::Unsigned(32)));
    assert!(!needs_cast(&Type::Unsigned(8), &Type::Unsigned(64)));
}

#[test]
fn a_condition_accepts_any_scalar() {
    assert!(!needs_cast(&Type::Unsigned(32), &Type::Bool));
    assert!(!needs_cast(&Type::Pointer(Box::new(Type::Unsigned(8))), &Type::Bool));
}

#[test]
fn crossing_between_integers_and_pointers_is_spelled() {
    let pointer = Type::Pointer(Box::new(Type::Unsigned(32)));
    assert!(needs_cast(&Type::Unsigned(32), &pointer));
    assert!(needs_cast(&pointer, &Type::Unsigned(32)));
}

#[test]
fn changing_what_a_pointer_points_at_is_spelled() {
    let bytes = Type::Pointer(Box::new(Type::Unsigned(8)));
    let words = Type::Pointer(Box::new(Type::Unsigned(32)));
    assert!(needs_cast(&bytes, &words));
    assert!(!needs_cast(&bytes, &bytes.clone()));
}

#[test]
fn float_and_integer_conversions_are_spelled() {
    assert!(needs_cast(&Type::Unsigned(32), &Type::Float(32)));
    assert!(needs_cast(&Type::Float(64), &Type::Signed(32)));
}

#[test]
fn an_unknown_type_makes_no_claim() {
    assert!(!needs_cast(&Type::Unknown, &Type::Unsigned(32)));
    assert!(!needs_cast(&Type::Unsigned(32), &Type::Unknown));
}

#[test]
fn a_pointer_valued_address_is_already_an_address() {
    assert!(!address_needs_cast(&Type::Pointer(Box::new(Type::Unsigned(8)))));
    assert!(address_needs_cast(&Type::Unsigned(32)));
}

#[test]
fn a_bool_converts_to_an_integer_but_not_a_float() {
    assert!(!needs_cast(&Type::Bool, &Type::Signed(8)));
    assert!(needs_cast(&Type::Bool, &Type::Float(32)));
}

#[test]
fn nested_pointers_compare_their_targets() {
    let a = Type::Pointer(Box::new(Type::Pointer(Box::new(Type::Signed(16)))));
    let b = Type::Pointer(Box::new(Type::Pointer(Box::new(Type::Signed(16)))));
    let c = Type::Pointer(Box::new(Type::Pointer(Box::new(Type::Signed(32)))));
    assert!(!needs_cast(&a, &b));
    assert!(needs_cast(&a, &c));
}
