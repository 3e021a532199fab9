use snek_runtime::entry::{
    out_of_memory_message, parse_heap_size, parse_input, snek_error, snek_print_stack, try_parse_heap_size,
    try_parse_input, ErrCode,
};
use snek_runtime::heap::Region;
use snek_runtime::printer::{snek_print, snek_str};
use snek_runtime::value::{addr_to_ref, decode, encode, is_vec_ref, ref_to_addr, Value};
use std::collections::HashSet;

#[test]
fn integers_round_trip() {
    for n in [0i64, 1, -1, 5, -5, 1000, (1 << 62) - 1, -(1 << 62)] {
        assert_eq!(decode(encode(Value::Int(n))), Value::Int(n));
    }
    assert_eq!(encode(Value::Int(5)), 10);
    assert_eq!(encode(Value::Int(-1)), u64::MAX - 1);
    assert_eq!(decode(u64::MAX - 1), Value::Int(-1));
    assert_eq!(decode(1 << 63), Value::Int(-(1 << 62)));
}

#[test]
fn sentinels_round_trip() {
    assert_eq!(decode(7), Value::Bool(true));
    assert_eq!(decode(3), Value::Bool(false));
    assert_eq!(decode(1), Value::Nil);
    assert_eq!(encode(Value::Bool(true)), 7);
    assert_eq!(encode(Value::Bool(false)), 3);
    assert_eq!(encode(Value::Nil), 1);
}

#[test]
fn references_are_one_above_the_address() {
    assert_eq!(decode(0x1001), Value::VecRef(0x1000));
    assert_eq!(encode(Value::VecRef(0x1000)), 0x1001);
    assert_eq!(ref_to_addr(0x1001), 0x1000);
    assert_eq!(addr_to_ref(0x1000), 0x1001);
    assert!(is_vec_ref(0x1001));
    assert!(is_vec_ref(5));
    assert!(!is_vec_ref(1));
    assert!(!is_vec_ref(3));
    assert!(!is_vec_ref(7));
    assert!(!is_vec_ref(8));
}

#[test]
fn region_is_made_only_where_it_fits() {
    let r = Region::new(0x1000, 3).unwrap();
    assert_eq!(r.words, vec![0, 0, 0]);
    assert_eq!(r.end(), 0x1018);
    assert_eq!(r.addr(2), 0x1010);
    assert_eq!(r.index(0x1010, 3), Some(2));
    assert_eq!(r.index(0x1010, 2), None);
    assert_eq!(r.index(0x1011, 3), None);
    assert_eq!(r.index(0xff8, 3), None);
    assert!(Region::new(0x1001, 3).is_none());
    assert!(Region::new(0, 3).is_none());
    assert!(Region::new(u64::MAX - 7, 1).is_none());
}

#[test]
fn make_vector_prints_its_elements() {
    let heap = Region { start: 0x1000, words: vec![0, 5, 0, 0, 0, 0, 0] };
    assert_eq!(snek_print(&heap, 0x1001), ("[0, 0, 0, 0, 0]".to_string(), 0x1001));
}

#[test]
fn plain_values_print() {
    let heap = Region::new(0x1000, 0).unwrap();
    assert_eq!(snek_print(&heap, 7).0, "true");
    assert_eq!(snek_print(&heap, 3).0, "false");
    assert_eq!(snek_print(&heap, 1).0, "nil");
    assert_eq!(snek_print(&heap, 0).0, "0");
    assert_eq!(snek_print(&heap, 178).0, "89");
    assert_eq!(snek_print(&heap, u64::MAX - 1).0, "-1");
    assert_eq!(snek_print(&heap, 1 << 63).0, "-4611686018427387904");
}

#[test]
fn nested_and_empty_vectors_print() {
    // [nil, [1, 2], nil] and []
    let heap = Region { start: 0x1000, words: vec![0, 2, 2, 4, 0, 3, 1, 0x1001, 1, 0, 0] };
    assert_eq!(snek_print(&heap, 0x1021).0, "[nil, [1, 2], nil]");
    assert_eq!(snek_print(&heap, 0x1049).0, "[]");
    let heap = Region { start: 0x1000, words: vec![0, 3, 3, 7, 34] };
    assert_eq!(snek_print(&heap, 0x1001).0, "[false, true, 17]");
}

#[test]
fn vector_inside_itself_prints_a_marker() {
    let heap = Region { start: 0x1000, words: vec![0, 2, 2, 0x1001] };
    assert_eq!(snek_print(&heap, 0x1001).0, "[1, [...]]");
    // a = [b, b], b = [a]: b is rendered in full both times
    let heap = Region { start: 0x1000, words: vec![0, 2, 0x1021, 0x1021, 0, 1, 0x1001] };
    assert_eq!(snek_print(&heap, 0x1001).0, "[[[...]], [[...]]]");
}

#[test]
fn shared_vector_prints_in_full_each_time() {
    let heap = Region { start: 0x1000, words: vec![0, 1, 6, 0, 2, 0x1001, 0x1001] };
    let mut seen = HashSet::new();
    assert_eq!(snek_str(&heap, 0x1019, &mut seen), "[[3], [3]]");
    assert!(seen.is_empty());
    seen.insert(0x1001);
    assert_eq!(snek_str(&heap, 0x1019, &mut seen), "[[...], [...]]");
    assert_eq!(seen.len(), 1);
}

#[test]
fn reference_to_no_vector_prints_as_unknown() {
    let heap = Region { start: 0x1000, words: vec![0, 4, 0] };
    assert_eq!(snek_print(&heap, 0x2001).0, "unknown value: 8193");
    assert_eq!(snek_print(&heap, 0x1001).0, "unknown value: 4097");
    assert_eq!(snek_print(&heap, 5).0, "unknown value: 5");
}

#[test]
fn error_codes_and_messages() {
    assert_eq!(ErrCode::InvalidArgument.code(), 1);
    assert_eq!(ErrCode::Overflow.code(), 2);
    assert_eq!(ErrCode::IndexOutOfBounds.code(), 3);
    assert_eq!(ErrCode::InvalidVecSize.code(), 4);
    assert_eq!(ErrCode::OutOfMemory.code(), 5);
    assert_eq!(ErrCode::from_code(3), Some(ErrCode::IndexOutOfBounds));
    assert_eq!(ErrCode::from_code(5), Some(ErrCode::OutOfMemory));
    assert_eq!(ErrCode::from_code(0), None);
    assert_eq!(ErrCode::from_code(6), None);
    assert_eq!(snek_error(1), "invalid argument");
    assert_eq!(snek_error(2), "overflow");
    assert_eq!(snek_error(3), "index out of bounds");
    assert_eq!(snek_error(4), "vector size must be non-negative");
    assert_eq!(snek_error(5), "an error ocurred 5");
    assert_eq!(snek_error(-12), "an error ocurred -12");
    assert_eq!(out_of_memory_message(), "out of memory");
}

#[test]
fn inputs_are_read() {
    assert_eq!(parse_input("true"), 7);
    assert_eq!(parse_input("false"), 3);
    assert_eq!(parse_input("5"), 10);
    assert_eq!(parse_input("-1"), u64::MAX - 1);
    assert_eq!(parse_input("1000"), 2000);
    assert_eq!(parse_input("9223372036854775807"), u64::MAX - 1);
    assert_eq!(parse_input("-9223372036854775808"), 0);
    assert_eq!(try_parse_input("+3"), Some(6));
    assert_eq!(try_parse_input("nil"), None);
    assert_eq!(try_parse_input(""), None);
    assert_eq!(try_parse_input("9223372036854775808"), None);
    assert_eq!(parse_heap_size("10000"), 10000);
    assert_eq!(try_parse_heap_size("12"), Some(12));
    assert_eq!(try_parse_heap_size("-1"), None);
    assert_eq!(try_parse_heap_size("many"), None);
}

#[test]
fn stack_dump_lists_words_from_the_base_down() {
    let stack = Region { start: 0x8000, words: vec![10, 0x1001, 0, 255] };
    let lines = snek_print_stack(&stack, 0x8018, 0x8018, 0x8008).unwrap();
    assert_eq!(
        lines,
        vec![
            "-----------------------------------------".to_string(),
            "0x8018: 0xff".to_string(),
            "0x8010: 0x0".to_string(),
            "0x8008: 0x1001".to_string(),
            "-----------------------------------------".to_string(),
        ]
    );
    assert_eq!(snek_print_stack(&stack, 0x8020, 0x8018, 0x8008), None);
    assert_eq!(snek_print_stack(&stack, 0x8018, 0x8018, 0x7ff8), None);
    assert_eq!(snek_print_stack(&stack, 0x8000, 0x8000, 0x8008).unwrap().len(), 2);
}
