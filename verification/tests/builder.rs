use flatbuffers::FlatBufferBuilder;
use lean_buffer::builder::{packed_bytes, padding_for, uint_bytes, TableBuilder};
use lean_buffer::encode::{encode, flatten};
use lean_buffer::layout::{find_root, find_slot, read_bytes, read_target, read_uint, read_uints};
use lean_buffer::plan::{FieldDecl, Plan};
use lean_buffer::text::{bytes_eq, str_eq};
use lean_buffer::value::{default_value, Item, Scalar, Value};

#[test]
fn padding_fills_up_to_the_alignment() {
    assert_eq!(padding_for(0, 4), 0);
    assert_eq!(padding_for(1, 4), 3);
    assert_eq!(padding_for(7, 8), 1);
    assert_eq!(padding_for(8, 8), 0);
    assert_eq!(padding_for(13, 2), 1);
    assert_eq!(padding_for(13, 1), 0);
}

#[test]
fn numbers_are_little_endian() {
    assert_eq!(uint_bytes(0x0102030405060708, 8), vec![8, 7, 6, 5, 4, 3, 2, 1]);
    assert_eq!(uint_bytes(0x0102, 2), vec![2, 1]);
    assert_eq!(uint_bytes(0x01020304, 2), vec![4, 3]);
    assert_eq!(uint_bytes(7, 0), Vec::<u8>::new());
    assert_eq!(packed_bytes(&vec![1, 0x0203], 2), vec![1, 0, 3, 2]);
    assert_eq!(read_uint(&[8, 7, 6, 5, 4, 3, 2, 1], 0, 8), Some(0x0102030405060708));
    assert_eq!(read_uint(&[0, 1, 2], 1, 2), Some(0x0201));
    assert_eq!(read_uint(&[0, 1, 2], 2, 2), None);
    assert_eq!(read_uint(&[0, 1, 2], 9, 1), None);
}

#[test]
fn builder_writes_what_flatbuffers_writes() {
    let mut ours = TableBuilder::new();
    let text = ours.create_bytes("hello".as_bytes()).unwrap();
    let numbers = ours.create_uints(&vec![1, 2, 3], 2).unwrap();
    let first = ours.create_bytes("a".as_bytes()).unwrap();
    let second = ours.create_bytes("bc".as_bytes()).unwrap();
    let texts = ours.create_targets(&vec![first, second]).unwrap();
    ours.start_table();
    assert!(ours.push_slot_uint(8, 0x1122334455667788, 8));
    assert!(ours.push_slot_target(4, text));
    assert!(ours.push_slot_target(6, numbers));
    assert!(ours.push_slot_target(12, texts));
    assert!(ours.push_slot_uint(10, 9, 1));
    let table = ours.end_table().unwrap();
    assert!(ours.finish(table));

    let mut theirs = FlatBufferBuilder::new();
    let text = theirs.create_string("hello");
    let numbers = theirs.create_vector(&[1u16, 2, 3]);
    let first = theirs.create_string("a");
    let second = theirs.create_string("bc");
    let texts = theirs.create_vector(&[first, second]);
    let start = theirs.start_table();
    theirs.push_slot_always::<u64>(8, 0x1122334455667788);
    theirs.push_slot_always(4, text);
    theirs.push_slot_always(6, numbers);
    theirs.push_slot_always(12, texts);
    theirs.push_slot_always::<u8>(10, 9);
    let end = theirs.end_table(start);
    theirs.finish_minimal(end);

    let bytes = ours.finished_data();
    assert_eq!(bytes, theirs.finished_data().to_vec());
    assert_eq!(ours.used(), bytes.len());
    assert!(ours.has_room(16));
    assert!(!ours.has_room(u64::MAX));

    let root = find_root(&bytes).unwrap();
    assert_eq!(find_slot(&bytes, root, 14), None);
    assert_eq!(find_slot(&bytes, root, 2000), None);
    let at = find_slot(&bytes, root, 8).unwrap();
    assert_eq!(read_uint(&bytes, at, 8), Some(0x1122334455667788));
    let at = find_slot(&bytes, root, 10).unwrap();
    assert_eq!(read_uint(&bytes, at, 1), Some(9));
    let at = read_target(&bytes, find_slot(&bytes, root, 4).unwrap()).unwrap();
    assert_eq!(read_bytes(&bytes, at), Some("hello".as_bytes().to_vec()));
    let at = read_target(&bytes, find_slot(&bytes, root, 6).unwrap()).unwrap();
    assert_eq!(read_uints(&bytes, at, 2), Some(vec![1, 2, 3]));
}

#[test]
fn a_builder_is_emptied_before_it_is_used_again() {
    let decls = vec![
        FieldDecl { name: "a".to_string(), type_text: "String".to_string() },
        FieldDecl { name: "b".to_string(), type_text: "u16".to_string() },
    ];
    let plan = Plan::assemble("R", &decls).unwrap();
    let first = vec![
        Value::Single(Item::Text("first".to_string())),
        Value::Single(Item::Scalar(Scalar::U16(1))),
    ];
    let second = vec![default_value(plan.fields[0].kind), default_value(plan.fields[1].kind)];
    let mut builder = TableBuilder::new();
    assert_eq!(flatten(&plan, &first, &mut builder), Ok(()));
    assert_eq!(builder.finished_data(), encode(&plan, &first).unwrap());
    assert_eq!(flatten(&plan, &second, &mut builder), Ok(()));
    assert_eq!(builder.finished_data(), encode(&plan, &second).unwrap());
    builder.reset();
    assert_eq!(builder.finished_data(), Vec::<u8>::new());
}

#[test]
fn strings_and_bytes_compare_by_content() {
    assert!(str_eq("grüße", "grüße"));
    assert!(!str_eq("grüße", "grusse"));
    assert!(!str_eq("a", "ab"));
    assert!(str_eq("", ""));
    assert!(bytes_eq(&[1, 2], &[1, 2]));
    assert!(!bytes_eq(&[1, 2], &[1, 3]));
    assert!(!bytes_eq(&[1, 2], &[1]));
}
