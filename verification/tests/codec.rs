use uavcan_codec::buffer::{DeserializationBuffer, DeserializationResult, SerializationBuffer, SerializationResult};
use uavcan_codec::types::{FieldDecl, RecordType, RecordValue, Signedness, TypeDesc, Value};

fn field(name: &str, ty: TypeDesc) -> FieldDecl {
    FieldDecl { name: name.to_string(), ty }
}

fn unsigned(bits: usize) -> TypeDesc {
    TypeDesc::Scalar { sign: Signedness::Unsigned, bits }
}

fn record(fields: Vec<FieldDecl>) -> RecordType {
    RecordType { fields, dsdl_signature: 0x0123_4567_89ab_cdef, data_type_signature: 0x0fed_cba9_8765_4321 }
}

fn bits_of(v: u64, w: usize) -> Vec<bool> {
    let mut out = Vec::new();
    for i in 0..w {
        out.push((v >> i) & 1 == 1);
    }
    out
}

/// Serializes the whole value into one generously sized window.
fn serialize_all(rt: &RecordType, v: &RecordValue) -> Vec<bool> {
    let mut buf = SerializationBuffer::new(1 << 16);
    let mut f: usize = 0;
    let mut b: usize = 0;
    let r = rt.serialize(v, &mut f, &mut b, true, &mut buf);
    assert_eq!(r, SerializationResult::Finished);
    let mut out = Vec::new();
    for i in 0..buf.bit_length() {
        out.push(buf.get_bit(i));
    }
    out
}

/// Serializes across windows of the given capacities, checking the cursor
/// protocol along the way, and returns the concatenated wire bits.
fn serialize_split(rt: &RecordType, v: &RecordValue, caps: &[usize]) -> Vec<bool> {
    let total = rt.flattened_fields_number();
    let mut f: usize = 0;
    let mut b: usize = 0;
    let mut out = Vec::new();
    for (k, cap) in caps.iter().enumerate() {
        let f_before = f;
        let mut buf = SerializationBuffer::new(*cap);
        let r = rt.serialize(v, &mut f, &mut b, true, &mut buf);
        for i in 0..buf.bit_length() {
            out.push(buf.get_bit(i));
        }
        // the flattened cursor is non-decreasing and never passes the count
        assert!(f >= f_before);
        assert!(f <= total);
        if r == SerializationResult::Finished {
            assert_eq!(f, total);
            assert_eq!(b, 0);
            assert_eq!(k, caps.len() - 1);
            return out;
        }
        assert_eq!(buf.bit_length(), *cap);
    }
    panic!("record did not finish in the given windows");
}

/// Deserializes from windows holding the given bit runs; returns the value.
fn deserialize_runs(rt: &RecordType, runs: &[&[bool]]) -> RecordValue {
    let total = rt.flattened_fields_number();
    let mut v = rt.new_value();
    let mut f: usize = 0;
    let mut b: usize = 0;
    for (k, run) in runs.iter().enumerate() {
        let f_before = f;
        let mut buf = DeserializationBuffer::new(run.to_vec());
        let r = rt.deserialize(&mut v, &mut f, &mut b, true, &mut buf);
        assert!(f >= f_before);
        assert!(f <= total);
        if r == DeserializationResult::Finished {
            assert_eq!(f, total);
            assert_eq!(b, 0);
            assert_eq!(k, runs.len() - 1);
            return v;
        }
        assert_eq!(r, DeserializationResult::BufferInsufficient);
    }
    panic!("record did not finish in the given windows");
}

fn split_into(bits: &[bool], sizes: &[usize]) -> Vec<Vec<bool>> {
    let mut out = Vec::new();
    let mut at: usize = 0;
    for s in sizes {
        out.push(bits[at..at + s].to_vec());
        at += s;
    }
    assert_eq!(at, bits.len());
    out
}

#[test]
fn flattened_count_sums_nested_records() {
    // {2 primitives, 1 static array, 1 nested record with 3 flattened
    // fields}: 2 + 1 + 3 = 6
    let nested = record(vec![
        field("p", unsigned(4)),
        field("q", unsigned(4)),
        field("r", unsigned(4)),
    ]);
    let rt = record(vec![
        field("a", unsigned(7)),
        field("b", unsigned(3)),
        field("c", TypeDesc::StaticArray { elem_bits: 4, count: 5 }),
        field("d", TypeDesc::Record(nested)),
    ]);
    assert_eq!(rt.flattened_fields_number(), 6);
}

#[test]
fn scalar_bits_are_lsb_first() {
    let rt = record(vec![field("a", unsigned(3))]);
    let mut v = rt.new_value();
    v.fields[0] = Value::Scalar { raw: 5 };
    // 5 = 0b101, emitted low bit first
    assert_eq!(serialize_all(&rt, &v), vec![true, false, true]);
}

#[test]
fn bit_length_is_exactly_what_serialize_writes() {
    let nested = record(vec![
        field("y", unsigned(5)),
        field("z", TypeDesc::StaticArray { elem_bits: 4, count: 2 }),
    ]);
    let rt = record(vec![
        field("x", unsigned(3)),
        field("inner", TypeDesc::Record(nested)),
        field("d", TypeDesc::DynamicArray { elem_bits: 3, capacity: 5 }),
    ]);
    let mut v = rt.new_value();
    v.fields[0] = Value::Scalar { raw: 6 };
    v.fields[1] = Value::Record(RecordValue {
        fields: vec![
            Value::Scalar { raw: 21 },
            Value::Array { elems: vec![9, 3] },
        ],
    });
    v.fields[2] = Value::Dynamic { count: 2, elems: vec![1, 7] };
    let wire = serialize_all(&rt, &v);
    // x: 3, y: 5, z: 8, d (tail, no prefix): 6
    assert_eq!(rt.bit_length(&v), 3 + 5 + 8 + 6);
    assert_eq!(wire.len(), rt.bit_length(&v));
}

#[test]
fn dynamic_array_not_last_keeps_its_length_prefix() {
    // capacity 5 needs a 3-bit prefix (5 < 8)
    let rt = record(vec![
        field("d", TypeDesc::DynamicArray { elem_bits: 4, capacity: 5 }),
        field("t", unsigned(2)),
    ]);
    let mut v = rt.new_value();
    v.fields[0] = Value::Dynamic { count: 2, elems: vec![10, 3] };
    v.fields[1] = Value::Scalar { raw: 1 };
    assert_eq!(rt.bit_length(&v), 3 + 8 + 2);
    let wire = serialize_all(&rt, &v);
    let mut expected = bits_of(2, 3);
    expected.extend(bits_of(10, 4));
    expected.extend(bits_of(3, 4));
    expected.extend(bits_of(1, 2));
    assert_eq!(wire, expected);
    // and the reader recovers the same value through the prefix
    let got = deserialize_runs(&rt, &[&wire]);
    assert_eq!(got, v);
}

#[test]
fn dynamic_array_as_last_field_omits_the_prefix() {
    let rt = record(vec![
        field("a", unsigned(7)),
        field("b", TypeDesc::DynamicArray { elem_bits: 7, capacity: 9 }),
    ]);
    let mut v = rt.new_value();
    v.fields[0] = Value::Scalar { raw: 5 };
    v.fields[1] = Value::Dynamic { count: 3, elems: vec![1, 2, 3] };
    // 7 bits for a, 21 for the elements, and no length prefix at all
    assert_eq!(rt.bit_length(&v), 28);
    let wire = serialize_all(&rt, &v);
    let mut expected = bits_of(5, 7);
    expected.extend(bits_of(1, 7));
    expected.extend(bits_of(2, 7));
    expected.extend(bits_of(3, 7));
    assert_eq!(wire, expected);
}

#[test]
fn tail_array_split_across_two_frames() {
    // the concrete two-frame scenario: a 2-byte window takes `a` and as
    // much of `b` as fits; the continuation window takes the rest
    let rt = record(vec![
        field("a", unsigned(7)),
        field("b", TypeDesc::DynamicArray { elem_bits: 7, capacity: 9 }),
    ]);
    let mut v = rt.new_value();
    v.fields[0] = Value::Scalar { raw: 5 };
    v.fields[1] = Value::Dynamic { count: 3, elems: vec![1, 2, 3] };

    let mut f: usize = 0;
    let mut b: usize = 0;
    let mut first = SerializationBuffer::new(16);
    let r1 = rt.serialize(&v, &mut f, &mut b, true, &mut first);
    assert_eq!(r1, SerializationResult::BufferFull);
    assert_eq!(first.bit_length(), 16);
    let mut second = SerializationBuffer::new(64);
    let r2 = rt.serialize(&v, &mut f, &mut b, true, &mut second);
    assert_eq!(r2, SerializationResult::Finished);
    assert_eq!(second.bit_length(), 12);

    let mut wire = Vec::new();
    for i in 0..first.bit_length() {
        wire.push(first.get_bit(i));
    }
    for i in 0..second.bit_length() {
        wire.push(second.get_bit(i));
    }
    assert_eq!(wire, serialize_all(&rt, &v));

    // deserializing the concatenated bits reconstructs the value with no
    // length field consumed: the count comes from the remaining bits
    let got = deserialize_runs(&rt, &[&wire]);
    assert_eq!(got, v);

    // a window boundary inside or at the start of the tail region would
    // instead truncate the array (the tail takes its count from what the
    // current window still holds), so the reader must be handed the whole
    // remainder of the transfer once the tail can begin; see
    // `truncated_tail_is_a_shorter_array`
    let mut f2: usize = 0;
    let mut b2: usize = 0;
    let mut v2 = rt.new_value();
    let mut head = DeserializationBuffer::new(wire[..7].to_vec());
    let r = rt.deserialize(&mut v2, &mut f2, &mut b2, true, &mut head);
    assert_eq!(r, DeserializationResult::Finished);
    assert_eq!(v2.fields[1], Value::Dynamic { count: 0, elems: vec![] });
}

#[test]
fn round_trip_over_one_bit_windows() {
    // no tail array: any split of the wire bits resumes cleanly, even one
    // bit at a time, and yields the same value as one unsplit pass
    let nested = record(vec![
        field("y", unsigned(5)),
        field("z", TypeDesc::StaticArray { elem_bits: 4, count: 2 }),
    ]);
    let rt = record(vec![
        field("x", unsigned(3)),
        field("inner", TypeDesc::Record(nested)),
        field("d", TypeDesc::DynamicArray { elem_bits: 3, capacity: 5 }),
        field("w", unsigned(4)),
    ]);
    let mut v = rt.new_value();
    v.fields[0] = Value::Scalar { raw: 6 };
    v.fields[1] = Value::Record(RecordValue {
        fields: vec![
            Value::Scalar { raw: 21 },
            Value::Array { elems: vec![9, 3] },
        ],
    });
    v.fields[2] = Value::Dynamic { count: 3, elems: vec![1, 7, 2] };
    v.fields[3] = Value::Scalar { raw: 11 };

    let wire = serialize_all(&rt, &v);
    let sizes: Vec<usize> = wire.iter().map(|_| 1).collect();
    assert_eq!(serialize_split(&rt, &v, &sizes), wire);

    let runs = split_into(&wire, &sizes);
    let borrowed: Vec<&[bool]> = runs.iter().map(|r| r.as_slice()).collect();
    let got = deserialize_runs(&rt, &borrowed);
    assert_eq!(got, v);

    let one_pass = deserialize_runs(&rt, &[&wire]);
    assert_eq!(one_pass, v);
}

#[test]
fn oversized_length_prefix_is_rejected() {
    // capacity 2 takes a 2-bit prefix; the prefix value 3 exceeds it
    let rt = record(vec![
        field("d", TypeDesc::DynamicArray { elem_bits: 2, capacity: 2 }),
        field("t", unsigned(2)),
    ]);
    let mut v = rt.new_value();
    let mut f: usize = 0;
    let mut b: usize = 0;
    let mut buf = DeserializationBuffer::new(vec![true, true, false, false, false, false]);
    let r = rt.deserialize(&mut v, &mut f, &mut b, true, &mut buf);
    assert_eq!(r, DeserializationResult::InvalidLength);
}

#[test]
fn oversized_tail_is_rejected() {
    // eight remaining bits at two per element announce four elements,
    // over the capacity of two
    let rt = record(vec![field("d", TypeDesc::DynamicArray { elem_bits: 2, capacity: 2 })]);
    let mut v = rt.new_value();
    let mut f: usize = 0;
    let mut b: usize = 0;
    let mut buf = DeserializationBuffer::new(vec![false; 8]);
    let r = rt.deserialize(&mut v, &mut f, &mut b, true, &mut buf);
    assert_eq!(r, DeserializationResult::InvalidLength);
}

#[test]
fn truncated_tail_is_a_shorter_array() {
    // a tail array defines its count from whatever remains: a window
    // cut short deliberately yields fewer elements, never an error
    let rt = record(vec![
        field("a", unsigned(4)),
        field("b", TypeDesc::DynamicArray { elem_bits: 5, capacity: 6 }),
    ]);
    let mut v = rt.new_value();
    v.fields[0] = Value::Scalar { raw: 9 };
    v.fields[1] = Value::Dynamic { count: 4, elems: vec![1, 2, 3, 4] };
    let wire = serialize_all(&rt, &v);
    // drop the last element's five bits: the reader sees a 3-element array
    let shortened = &wire[..wire.len() - 5];
    let got = deserialize_runs(&rt, &[shortened]);
    assert_eq!(got.fields[0], Value::Scalar { raw: 9 });
    assert_eq!(got.fields[1], Value::Dynamic { count: 3, elems: vec![1, 2, 3] });
}

#[test]
fn monotonic_cursor_across_partial_calls() {
    let rt = record(vec![
        field("a", unsigned(7)),
        field("b", unsigned(7)),
        field("c", unsigned(7)),
    ]);
    let mut v = rt.new_value();
    v.fields[0] = Value::Scalar { raw: 100 };
    v.fields[1] = Value::Scalar { raw: 50 };
    v.fields[2] = Value::Scalar { raw: 25 };
    let wire = serialize_all(&rt, &v);
    assert_eq!(wire.len(), 21);
    // five-bit windows force suspensions inside every field
    let sizes = [5, 5, 5, 5, 1];
    assert_eq!(serialize_split(&rt, &v, &sizes), wire);
    let runs = split_into(&wire, &sizes);
    let borrowed: Vec<&[bool]> = runs.iter().map(|r| r.as_slice()).collect();
    assert_eq!(deserialize_runs(&rt, &borrowed), v);
}

#[test]
fn new_value_is_all_zero() {
    let rt = record(vec![
        field("a", unsigned(7)),
        field("d", TypeDesc::DynamicArray { elem_bits: 4, capacity: 3 }),
        field("s", TypeDesc::StaticArray { elem_bits: 3, count: 2 }),
    ]);
    let v = rt.new_value();
    assert_eq!(v.fields[0], Value::Scalar { raw: 0 });
    assert_eq!(v.fields[1], Value::Dynamic { count: 0, elems: vec![] });
    assert_eq!(v.fields[2], Value::Array { elems: vec![0, 0] });
    // an all-zero record still serializes to its exact bit length: the
    // empty dynamic array in the middle is just its two-bit length prefix
    assert_eq!(rt.bit_length(&v), 7 + 2 + 6);
}

#[test]
fn signatures_are_carried_through() {
    let rt = record(vec![field("a", unsigned(2))]);
    assert_eq!(rt.dsdl_signature, 0x0123_4567_89ab_cdef);
    assert_eq!(rt.data_type_signature, 0x0fed_cba9_8765_4321);
}

#[test]
fn malformed_declarations_are_rejected_at_definition_time() {
    // scalar width outside 2..=64
    let bad_width = record(vec![field("a", unsigned(1))]);
    assert!(!bad_width.is_valid());
    let bad_width_hi = record(vec![field("a", unsigned(65))]);
    assert!(!bad_width_hi.is_valid());
    // zero-length array
    let empty_array = record(vec![field("s", TypeDesc::StaticArray { elem_bits: 4, count: 0 })]);
    assert!(!empty_array.is_valid());
    // empty dynamic array bound
    let empty_dynamic = record(vec![field("d", TypeDesc::DynamicArray { elem_bits: 4, capacity: 0 })]);
    assert!(!empty_dynamic.is_valid());
    // a malformed nested record poisons the outer one
    let bad_nested = record(vec![
        field("x", unsigned(8)),
        field("inner", TypeDesc::Record(record(vec![field("a", unsigned(1))]))),
    ]);
    assert!(!bad_nested.is_valid());
    // and a well-formed declaration passes
    let good = record(vec![
        field("x", unsigned(8)),
        field("s", TypeDesc::StaticArray { elem_bits: 4, count: 3 }),
        field("d", TypeDesc::DynamicArray { elem_bits: 2, capacity: 20 }),
    ]);
    assert!(good.is_valid());
}
