use uavcan_codec::classify::{
    array_from_dynamic, classify_type, is_dynamic_array, is_primitive_type,
    is_signed_primitive_type, is_static_array, is_unsigned_primitive_type,
    is_void_primitive_type, UavcanType,
};

#[test]
fn array_from_dynamic_test() {
    assert_eq!(array_from_dynamic("Dynamic<[u7; 9]>"), Some("[u7; 9]"));
}

#[test]
fn array_from_dynamic_rejects_other_shapes() {
    assert_eq!(array_from_dynamic("[u7; 9]"), None);
    assert_eq!(array_from_dynamic("u7"), None);
    assert_eq!(array_from_dynamic("Dynamic"), None);
    assert_eq!(array_from_dynamic("SomeOtherRecord"), None);
}

#[test]
fn classify_each_kind() {
    assert_eq!(classify_type("u12"), UavcanType::PrimitiveType);
    assert_eq!(classify_type("[i4; 5]"), UavcanType::StaticArray);
    assert_eq!(classify_type("Dynamic<[u2; 20]>"), UavcanType::DynamicArray);
    assert_eq!(classify_type("SomeOtherRecord"), UavcanType::Struct);
}

#[test]
fn width_bounds_are_exact() {
    assert!(is_unsigned_primitive_type("u2"));
    assert!(is_unsigned_primitive_type("u9"));
    assert!(is_unsigned_primitive_type("u10"));
    assert!(is_unsigned_primitive_type("u64"));
    assert!(!is_unsigned_primitive_type("u1"));
    assert!(!is_unsigned_primitive_type("u65"));
    assert!(!is_unsigned_primitive_type("u07"));
    assert!(!is_unsigned_primitive_type("u"));
    assert!(!is_unsigned_primitive_type("u128"));
}

#[test]
fn signed_and_void_scalars() {
    assert!(is_signed_primitive_type("i4"));
    assert!(is_signed_primitive_type("i64"));
    assert!(!is_signed_primitive_type("i1"));
    assert!(is_void_primitive_type("void3"));
    assert!(is_void_primitive_type("void64"));
    assert!(!is_void_primitive_type("void1"));
    assert!(!is_void_primitive_type("void"));
    assert!(is_primitive_type("u7"));
    assert!(!is_primitive_type("float32"));
}

#[test]
fn array_shapes() {
    assert!(is_static_array("[u7; 9]"));
    assert!(!is_static_array("u7"));
    assert!(is_dynamic_array("Dynamic<[u2; 20]>"));
    assert!(!is_dynamic_array("Dynamic<"));
    // a malformed width inside a primitive-looking name falls through to
    // the record kind
    assert_eq!(classify_type("void1"), UavcanType::Struct);
    assert_eq!(classify_type("u128"), UavcanType::Struct);
}
