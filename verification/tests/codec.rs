use flatbuffers::FlatBufferBuilder;
use lean_buffer::decode::{decode, new_object};
use lean_buffer::encode::{encode, EncodeError};
use lean_buffer::plan::{FieldDecl, Plan};
use lean_buffer::value::{Item, Scalar, Value};

fn plan_of(fields: &[(&str, &str)]) -> Plan {
    let decls: Vec<FieldDecl> = fields
        .iter()
        .map(|(name, type_text)| FieldDecl {
            name: name.to_string(),
            type_text: type_text.to_string(),
        })
        .collect();
    Plan::assemble("Entity", &decls).unwrap()
}

fn scalars(items: &[Scalar]) -> Value {
    Value::Sequence(items.iter().map(|s| Item::Scalar(*s)).collect())
}

#[test]
fn single_i64_round_trip() {
    let plan = plan_of(&[("t_i64", "i64")]);
    let values = vec![Value::Single(Item::Scalar(Scalar::I64(0x1337833F)))];
    let bytes = encode(&plan, &values).unwrap();
    assert_eq!(decode(&plan, &bytes), values);
}

#[test]
fn optional_i64_round_trip() {
    let plan = plan_of(&[("t_opt_i64", "Optioni64")]);
    let values = vec![Value::Optional(Some(Item::Scalar(Scalar::I64(64))))];
    let bytes = encode(&plan, &values).unwrap();
    assert_eq!(decode(&plan, &bytes), values);
}

#[test]
fn sequence_i64_round_trip() {
    let plan = plan_of(&[("t_vec_i64", "Veci64")]);
    let values = vec![scalars(&[
        Scalar::I64(8),
        Scalar::I64(3),
        Scalar::I64(3),
        Scalar::I64(15),
    ])];
    let bytes = encode(&plan, &values).unwrap();
    assert_eq!(decode(&plan, &bytes), values);
}

#[test]
fn empty_buffer_decodes_to_defaults() {
    let plan = plan_of(&[
        ("a", "u8"),
        ("b", "String"),
        ("c", "Vecu16"),
        ("d", "Optionchar"),
        ("e", "char"),
        ("f", "bool"),
        ("g", "f64"),
        ("h", "OptionString"),
        ("i", "VecString"),
    ]);
    let values = decode(&plan, &[]);
    assert_eq!(values, new_object(&plan));
    assert_eq!(
        values,
        vec![
            Value::Single(Item::Scalar(Scalar::U8(0))),
            Value::Single(Item::Text(String::new())),
            Value::Sequence(vec![]),
            Value::Optional(None),
            Value::Single(Item::Scalar(Scalar::Char('\0'))),
            Value::Single(Item::Scalar(Scalar::Bool(false))),
            Value::Single(Item::Scalar(Scalar::F64(0))),
            Value::Optional(None),
            Value::Sequence(vec![]),
        ]
    );
}

#[test]
fn single_i64_matches_flatbuffers() {
    let plan = plan_of(&[("t_i64", "i64")]);
    let values = vec![Value::Single(Item::Scalar(Scalar::I64(0x1337833F)))];
    let bytes = encode(&plan, &values).unwrap();

    let mut builder = FlatBufferBuilder::new();
    let start = builder.start_table();
    builder.push_slot::<i64>(4, 0x1337833F, 0);
    let end = builder.end_table(start);
    builder.finish_minimal(end);
    assert_eq!(bytes, builder.finished_data().to_vec());
}

#[test]
fn mixed_record_matches_flatbuffers() {
    let plan = plan_of(&[
        ("t_u8", "u8"),
        ("t_string", "String"),
        ("t_u64", "u64"),
        ("t_vec_string", "VecString"),
        ("t_i16", "i16"),
        ("t_vec_u8", "Vecu8"),
        ("t_opt_u32", "Optionu32"),
        ("t_bool", "bool"),
        ("t_vec_i64", "Veci64"),
        ("t_f32", "f32"),
        ("t_opt_string", "OptionString"),
    ]);
    let values = vec![
        Value::Single(Item::Scalar(Scalar::U8(7))),
        Value::Single(Item::Text("hello".to_string())),
        Value::Single(Item::Scalar(Scalar::U64(0x0102030405060708))),
        Value::Sequence(vec![
            Item::Text("ab".to_string()),
            Item::Text("".to_string()),
            Item::Text("cdefg".to_string()),
        ]),
        Value::Single(Item::Scalar(Scalar::I16(-2))),
        Value::Sequence(vec![
            Item::Scalar(Scalar::U8(1)),
            Item::Scalar(Scalar::U8(2)),
            Item::Scalar(Scalar::U8(3)),
        ]),
        Value::Optional(Some(Item::Scalar(Scalar::U32(0)))),
        Value::Single(Item::Scalar(Scalar::Bool(true))),
        scalars(&[Scalar::I64(-1), Scalar::I64(2)]),
        Value::Single(Item::Scalar(Scalar::F32(1.5f32.to_bits()))),
        Value::Optional(Some(Item::Text("opt".to_string()))),
    ];
    let bytes = encode(&plan, &values).unwrap();
    assert_eq!(decode(&plan, &bytes), values);

    let mut builder = FlatBufferBuilder::new();
    let str_6 = builder.create_string("hello");
    let strs: Vec<_> = ["ab", "", "cdefg"]
        .iter()
        .map(|s| builder.create_string(s))
        .collect();
    let vec_10 = builder.create_vector(strs.as_slice());
    let vec_14 = builder.create_vector(&[1u8, 2, 3]);
    let vec_20 = builder.create_vector(&[-1i64, 2]);
    let str_24 = builder.create_string("opt");
    let start = builder.start_table();
    builder.push_slot::<u64>(8, 0x0102030405060708, 0);
    builder.push_slot_always(10, vec_10);
    builder.push_slot_always(14, vec_14);
    builder.push_slot_always(20, vec_20);
    builder.push_slot_always(6, str_6);
    builder.push_slot_always(24, str_24);
    builder.push_slot_always::<u32>(16, 0);
    builder.push_slot::<f32>(22, 1.5, 0.0);
    builder.push_slot::<i16>(12, -2, 0);
    builder.push_slot::<u8>(4, 7, 0);
    builder.push_slot::<bool>(18, true, false);
    let end = builder.end_table(start);
    builder.finish_minimal(end);
    assert_eq!(bytes, builder.finished_data().to_vec());
}

#[test]
fn decodes_what_flatbuffers_wrote() {
    let plan = plan_of(&[("name", "String"), ("codes", "Vecchar"), ("n", "i32")]);
    let mut builder = FlatBufferBuilder::new();
    let name = builder.create_string("grüße");
    let codes = builder.create_vector(&[0x41u32, 0xD800, 0x1F600, 0x110000, 0x42]);
    let start = builder.start_table();
    builder.push_slot_always(6, codes);
    builder.push_slot_always(4, name);
    builder.push_slot::<i32>(8, -5, 0);
    let end = builder.end_table(start);
    builder.finish_minimal(end);
    let values = decode(&plan, builder.finished_data());
    assert_eq!(
        values,
        vec![
            Value::Single(Item::Text("grüße".to_string())),
            scalars(&[Scalar::Char('A'), Scalar::Char('\u{1F600}'), Scalar::Char('B')]),
            Value::Single(Item::Scalar(Scalar::I32(-5))),
        ]
    );
}

#[test]
fn values_of_another_shape_are_refused() {
    let plan = plan_of(&[("a", "u8")]);
    assert_eq!(encode(&plan, &vec![]), Err(EncodeError::Mismatch));
    assert_eq!(
        encode(&plan, &vec![Value::Single(Item::Scalar(Scalar::I8(1)))]),
        Err(EncodeError::Mismatch)
    );
    assert_eq!(
        encode(&plan, &vec![Value::Optional(None)]),
        Err(EncodeError::Mismatch)
    );
}

fn one(type_text: &str, value: Value) -> (Plan, Vec<Value>) {
    (plan_of(&[("x", type_text)]), vec![value])
}

fn scalar(s: Scalar) -> Value {
    Value::Single(Item::Scalar(s))
}

fn empty_table() -> Vec<u8> {
    let mut builder = FlatBufferBuilder::new();
    let start = builder.start_table();
    let end = builder.end_table(start);
    builder.finish_minimal(end);
    builder.finished_data().to_vec()
}

#[test]
fn every_scalar_type_round_trips() {
    let cases = [
        ("u8", Scalar::U8(u8::MAX)),
        ("i8", Scalar::I8(i8::MIN)),
        ("i8", Scalar::I8(-1)),
        ("u16", Scalar::U16(u16::MAX)),
        ("i16", Scalar::I16(i16::MIN)),
        ("u32", Scalar::U32(u32::MAX)),
        ("i32", Scalar::I32(i32::MIN)),
        ("i32", Scalar::I32(i32::MAX)),
        ("u64", Scalar::U64(u64::MAX)),
        ("i64", Scalar::I64(i64::MIN)),
        ("i64", Scalar::I64(-1)),
        ("f32", Scalar::F32(3.25f32.to_bits())),
        ("f32", Scalar::F32(f32::NAN.to_bits())),
        ("f64", Scalar::F64((-2.5f64).to_bits())),
        ("f64", Scalar::F64(f64::INFINITY.to_bits())),
        ("bool", Scalar::Bool(true)),
        ("char", Scalar::Char('a')),
        ("char", Scalar::Char('\u{10FFFF}')),
    ];
    for (type_text, s) in cases {
        let (plan, values) = one(type_text, scalar(s));
        let bytes = encode(&plan, &values).unwrap();
        assert_eq!(decode(&plan, &bytes), values, "{}", type_text);
        let (plan, values) = one(
            &format!("Option{}", type_text),
            Value::Optional(Some(Item::Scalar(s))),
        );
        let bytes = encode(&plan, &values).unwrap();
        assert_eq!(decode(&plan, &bytes), values, "Option{}", type_text);
    }
}

#[test]
fn raw_forms_are_twos_complement() {
    assert_eq!(Scalar::I8(-1).to_raw(), 0xFF);
    assert_eq!(Scalar::I16(-2).to_raw(), 0xFFFE);
    assert_eq!(Scalar::I32(i32::MIN).to_raw(), 0x8000_0000);
    assert_eq!(Scalar::I64(-1).to_raw(), u64::MAX);
    assert_eq!(Scalar::Bool(true).to_raw(), 1);
    assert_eq!(Scalar::Char('A').to_raw(), 0x41);
    assert_eq!(Scalar::from_raw(lean_buffer::kind::ScalarType::I8, 0x80), Some(Scalar::I8(-128)));
    assert_eq!(Scalar::from_raw(lean_buffer::kind::ScalarType::Bool, 2), Some(Scalar::Bool(true)));
    assert_eq!(Scalar::from_raw(lean_buffer::kind::ScalarType::Char, 0xD800), None);
    assert_eq!(Scalar::from_raw(lean_buffer::kind::ScalarType::Char, 0x110000), None);
    assert_eq!(
        Scalar::from_raw(lean_buffer::kind::ScalarType::Char, 0x1F600),
        Some(Scalar::Char('\u{1F600}'))
    );
    assert_eq!(Scalar::U8(3).kind(), lean_buffer::kind::ScalarType::U8);
}

#[test]
fn required_scalar_at_its_default_is_omitted() {
    let defaults = [
        ("u8", Scalar::U8(0)),
        ("i64", Scalar::I64(0)),
        ("f32", Scalar::F32(0)),
        ("f64", Scalar::F64(0)),
        ("bool", Scalar::Bool(false)),
        ("char", Scalar::Char('\0')),
    ];
    for (type_text, s) in defaults {
        assert!(s.equals_default());
        assert_eq!(Scalar::default_of(s.kind()), s);
        let (plan, values) = one(type_text, scalar(s));
        let bytes = encode(&plan, &values).unwrap();
        assert_eq!(bytes, empty_table(), "{}", type_text);
        assert_eq!(decode(&plan, &bytes), values);
    }
}

#[test]
fn negative_zero_is_omitted_and_decodes_as_zero() {
    let (plan, values) = one("f32", scalar(Scalar::F32((-0.0f32).to_bits())));
    let bytes = encode(&plan, &values).unwrap();
    assert_eq!(bytes, empty_table());
    assert_eq!(decode(&plan, &bytes), vec![scalar(Scalar::F32(0))]);
    let (plan, values) = one("f64", scalar(Scalar::F64((-0.0f64).to_bits())));
    let bytes = encode(&plan, &values).unwrap();
    assert_eq!(bytes, empty_table());
    assert_eq!(decode(&plan, &bytes), vec![scalar(Scalar::F64(0))]);

    let mut builder = FlatBufferBuilder::new();
    let start = builder.start_table();
    builder.push_slot::<f32>(4, -0.0, 0.0);
    let end = builder.end_table(start);
    builder.finish_minimal(end);
    assert_eq!(bytes, builder.finished_data().to_vec());
}

#[test]
fn optional_without_value_is_absent_and_with_default_is_present() {
    let (plan, none) = one("Optionu32", Value::Optional(None));
    let absent = encode(&plan, &none).unwrap();
    assert_eq!(absent, empty_table());
    assert_eq!(decode(&plan, &absent), none);

    let some = vec![Value::Optional(Some(Item::Scalar(Scalar::U32(0))))];
    let present = encode(&plan, &some).unwrap();
    assert_ne!(present, absent);
    assert_eq!(decode(&plan, &present), some);

    let (plan, none) = one("OptionString", Value::Optional(None));
    let absent = encode(&plan, &none).unwrap();
    assert_eq!(absent, empty_table());
    assert_eq!(decode(&plan, &absent), none);
    let some = vec![Value::Optional(Some(Item::Text(String::new())))];
    let present = encode(&plan, &some).unwrap();
    assert_ne!(present, absent);
    assert_eq!(decode(&plan, &present), some);
}

#[test]
fn empty_text_and_sequence_are_written() {
    let (plan, values) = one("String", Value::Single(Item::Text(String::new())));
    let bytes = encode(&plan, &values).unwrap();
    assert_ne!(bytes, empty_table());
    assert_eq!(decode(&plan, &bytes), values);
    let mut builder = FlatBufferBuilder::new();
    let text = builder.create_string("");
    let start = builder.start_table();
    builder.push_slot_always(4, text);
    let end = builder.end_table(start);
    builder.finish_minimal(end);
    assert_eq!(bytes, builder.finished_data().to_vec());

    let (plan, values) = one("Vecu16", Value::Sequence(vec![]));
    let bytes = encode(&plan, &values).unwrap();
    assert_ne!(bytes, empty_table());
    assert_eq!(decode(&plan, &bytes), values);
    let mut builder = FlatBufferBuilder::new();
    let items = builder.create_vector::<u16>(&[]);
    let start = builder.start_table();
    builder.push_slot_always(4, items);
    let end = builder.end_table(start);
    builder.finish_minimal(end);
    assert_eq!(bytes, builder.finished_data().to_vec());

    let (plan, values) = one("VecString", Value::Sequence(vec![]));
    let bytes = encode(&plan, &values).unwrap();
    assert_eq!(decode(&plan, &bytes), values);
}

#[test]
fn sequences_of_every_element_kind_round_trip() {
    let cases: Vec<(&str, Vec<Scalar>)> = vec![
        ("Vecu8", vec![Scalar::U8(0), Scalar::U8(255)]),
        ("Veci8", vec![Scalar::I8(-1), Scalar::I8(-128), Scalar::I8(127)]),
        ("Vecu16", vec![Scalar::U16(1), Scalar::U16(0xFFFF), Scalar::U16(0)]),
        ("Veci16", vec![Scalar::I16(-3)]),
        ("Vecu32", vec![Scalar::U32(7), Scalar::U32(u32::MAX)]),
        ("Veci32", vec![Scalar::I32(-7), Scalar::I32(i32::MIN)]),
        ("Vecu64", vec![Scalar::U64(u64::MAX), Scalar::U64(1)]),
        ("Veci64", vec![Scalar::I64(i64::MIN), Scalar::I64(0)]),
        ("Vecf32", vec![Scalar::F32(1.0f32.to_bits()), Scalar::F32((-0.0f32).to_bits())]),
        ("Vecf64", vec![Scalar::F64(1e300f64.to_bits())]),
        ("Vecbool", vec![Scalar::Bool(true), Scalar::Bool(false), Scalar::Bool(true)]),
        ("Vecchar", vec![Scalar::Char('x'), Scalar::Char('\0'), Scalar::Char('\u{E000}')]),
    ];
    for (type_text, items) in cases {
        let (plan, values) = one(type_text, scalars(&items));
        let bytes = encode(&plan, &values).unwrap();
        assert_eq!(decode(&plan, &bytes), values, "{}", type_text);
    }
    let (plan, values) = one(
        "VecString",
        Value::Sequence(vec![
            Item::Text("one".to_string()),
            Item::Text("zwei ü".to_string()),
            Item::Text(String::new()),
        ]),
    );
    let bytes = encode(&plan, &values).unwrap();
    assert_eq!(decode(&plan, &bytes), values);
}

#[test]
fn signed_bytes_are_stored_as_raw_bytes() {
    let (plan, values) = one("Veci8", scalars(&[Scalar::I8(-1), Scalar::I8(-128), Scalar::I8(5)]));
    let bytes = encode(&plan, &values).unwrap();
    let mut builder = FlatBufferBuilder::new();
    let items = builder.create_vector(&[-1i8, -128, 5]);
    let start = builder.start_table();
    builder.push_slot_always(4, items);
    let end = builder.end_table(start);
    builder.finish_minimal(end);
    assert_eq!(bytes, builder.finished_data().to_vec());
    let mut builder = FlatBufferBuilder::new();
    let items = builder.create_vector(&[0xFFu8, 0x80, 5]);
    let start = builder.start_table();
    builder.push_slot_always(4, items);
    let end = builder.end_table(start);
    builder.finish_minimal(end);
    assert_eq!(bytes, builder.finished_data().to_vec());
}

#[test]
fn char_is_stored_as_four_byte_code_point() {
    let (plan, values) = one("char", scalar(Scalar::Char('A')));
    let bytes = encode(&plan, &values).unwrap();
    let mut builder = FlatBufferBuilder::new();
    let start = builder.start_table();
    builder.push_slot::<u32>(4, 0x41, 0);
    let end = builder.end_table(start);
    builder.finish_minimal(end);
    assert_eq!(bytes, builder.finished_data().to_vec());

    let (plan, values) = one("Vecchar", scalars(&[Scalar::Char('A'), Scalar::Char('\u{1F600}')]));
    let bytes = encode(&plan, &values).unwrap();
    let mut builder = FlatBufferBuilder::new();
    let items = builder.create_vector(&[0x41u32, 0x1F600]);
    let start = builder.start_table();
    builder.push_slot_always(4, items);
    let end = builder.end_table(start);
    builder.finish_minimal(end);
    assert_eq!(bytes, builder.finished_data().to_vec());
}

#[test]
fn invalid_code_point_leaves_the_default() {
    let mut builder = FlatBufferBuilder::new();
    let start = builder.start_table();
    builder.push_slot_always::<u32>(4, 0xD800);
    builder.push_slot_always::<u32>(6, 0x110000);
    builder.push_slot_always::<u32>(8, 0x42);
    let end = builder.end_table(start);
    builder.finish_minimal(end);
    let plan = plan_of(&[("a", "char"), ("b", "Optionchar"), ("c", "Optionchar")]);
    assert_eq!(
        decode(&plan, builder.finished_data()),
        vec![
            scalar(Scalar::Char('\0')),
            Value::Optional(None),
            Value::Optional(Some(Item::Scalar(Scalar::Char('B')))),
        ]
    );
}

#[test]
fn malformed_text_degrades_to_the_default() {
    let mut builder = FlatBufferBuilder::new();
    let bad = builder.create_vector(&[0xFFu8, 0xFE]);
    let good = builder.create_byte_string("fine".as_bytes());
    let start = builder.start_table();
    builder.push_slot_always(4, bad);
    builder.push_slot_always(6, bad);
    builder.push_slot_always(8, good);
    let end = builder.end_table(start);
    builder.finish_minimal(end);
    let plan = plan_of(&[("a", "String"), ("b", "OptionString"), ("c", "String")]);
    assert_eq!(
        decode(&plan, builder.finished_data()),
        vec![
            Value::Single(Item::Text(String::new())),
            Value::Optional(None),
            Value::Single(Item::Text("fine".to_string())),
        ]
    );
}

#[test]
fn truncated_and_garbled_buffers_decode_without_failure() {
    let plan = plan_of(&[("a", "String"), ("b", "Vecu64"), ("c", "i32"), ("d", "VecString")]);
    let values = vec![
        Value::Single(Item::Text("some text".to_string())),
        scalars(&[Scalar::U64(1), Scalar::U64(2)]),
        scalar(Scalar::I32(-9)),
        Value::Sequence(vec![Item::Text("x".to_string())]),
    ];
    let bytes = encode(&plan, &values).unwrap();
    assert_eq!(decode(&plan, &bytes), values);
    for cut in 0..bytes.len() {
        let decoded = decode(&plan, &bytes[..cut]);
        assert_eq!(decoded.len(), 4);
    }
    for cut in 0..4 {
        assert_eq!(decode(&plan, &bytes[..cut]), new_object(&plan));
    }
    for i in 0..bytes.len() {
        let mut garbled = bytes.clone();
        garbled[i] ^= 0xFF;
        assert_eq!(decode(&plan, &garbled).len(), 4);
    }
    assert_eq!(decode(&plan, &[0xFF; 64]), new_object(&plan));
}

#[test]
fn table_beyond_what_a_vtable_can_say_is_refused() {
    let fields: Vec<(String, String)> = (0..8200)
        .map(|i| (format!("f{}", i), "u64".to_string()))
        .collect();
    let decls: Vec<FieldDecl> = fields
        .iter()
        .map(|(name, type_text)| FieldDecl {
            name: name.clone(),
            type_text: type_text.clone(),
        })
        .collect();
    let plan = Plan::assemble("Wide", &decls).unwrap();
    let full: Vec<Value> = (0..8200).map(|_| scalar(Scalar::U64(1))).collect();
    assert_eq!(encode(&plan, &full), Err(EncodeError::TooLarge));
    let sparse: Vec<Value> = (0..8200)
        .map(|i| scalar(Scalar::U64(if i % 2 == 0 { 1 } else { 0 })))
        .collect();
    let bytes = encode(&plan, &sparse).unwrap();
    assert_eq!(decode(&plan, &bytes), sparse);
}

#[test]
fn new_object_holds_the_defaults() {
    let plan = plan_of(&[("a", "i16"), ("b", "Optionf32"), ("c", "Vecbool"), ("d", "String")]);
    let fresh = new_object(&plan);
    assert_eq!(
        fresh,
        vec![
            scalar(Scalar::I16(0)),
            Value::Optional(None),
            Value::Sequence(vec![]),
            Value::Single(Item::Text(String::new())),
        ]
    );
    let bytes = encode(&plan, &fresh).unwrap();
    assert_eq!(decode(&plan, &bytes), fresh);
}

#[test]
fn values_are_copied_with_their_content() {
    let value = Value::Sequence(vec![
        Item::Text("a".to_string()),
        Item::Scalar(Scalar::Char('b')),
    ]);
    assert_eq!(value.clone(), value);
    let value = Value::Optional(Some(Item::Text("c".to_string())));
    assert_eq!(value.clone(), value);
    assert_eq!(Value::Optional(None).clone(), Value::Optional(None));
    let items = vec![Item::Scalar(Scalar::U8(1)), Item::Text("d".to_string())];
    assert_eq!(lean_buffer::value::clone_items(&items), items);
}

#[test]
fn a_record_without_fields_is_an_empty_table() {
    let plan = plan_of(&[]);
    let bytes = encode(&plan, &vec![]).unwrap();
    assert_eq!(bytes, empty_table());
    assert_eq!(decode(&plan, &bytes), vec![]);
    assert_eq!(decode(&plan, &[]), vec![]);
}

#[test]
fn fields_are_read_by_slot_whatever_the_commit_order() {
    let plan = plan_of(&[("a", "u8"), ("b", "u64"), ("c", "String"), ("d", "u16")]);
    let values = vec![
        scalar(Scalar::U8(1)),
        scalar(Scalar::U64(2)),
        Value::Single(Item::Text("three".to_string())),
        scalar(Scalar::U16(4)),
    ];
    let mut builder = FlatBufferBuilder::new();
    let text = builder.create_string("three");
    let start = builder.start_table();
    builder.push_slot::<u8>(4, 1, 0);
    builder.push_slot::<u16>(10, 4, 0);
    builder.push_slot_always(8, text);
    builder.push_slot::<u64>(6, 2, 0);
    let end = builder.end_table(start);
    builder.finish_minimal(end);
    assert_eq!(decode(&plan, builder.finished_data()), values);
    let ours = encode(&plan, &values).unwrap();
    assert_ne!(ours, builder.finished_data().to_vec());
    assert_eq!(decode(&plan, &ours), values);
}
