use lean_buffer::kind::{classify, element_from_name, scalar_from_name, ElementKind, Kind, ScalarType};
use lean_buffer::plan::{commit_order, slot_at, FieldDecl, Plan, PlanError, MAX_FIELDS};

const SCALARS: [(&str, ScalarType); 12] = [
    ("u8", ScalarType::U8),
    ("i8", ScalarType::I8),
    ("u16", ScalarType::U16),
    ("i16", ScalarType::I16),
    ("u32", ScalarType::U32),
    ("i32", ScalarType::I32),
    ("u64", ScalarType::U64),
    ("i64", ScalarType::I64),
    ("f32", ScalarType::F32),
    ("f64", ScalarType::F64),
    ("bool", ScalarType::Bool),
    ("char", ScalarType::Char),
];

fn decls(fields: &[(&str, &str)]) -> Vec<FieldDecl> {
    fields
        .iter()
        .map(|(name, type_text)| FieldDecl {
            name: name.to_string(),
            type_text: type_text.to_string(),
        })
        .collect()
}

#[test]
fn classifies_every_scalar() {
    for (text, scalar) in SCALARS {
        assert_eq!(scalar_from_name(text), Some(scalar));
        assert_eq!(element_from_name(text), Some(ElementKind::Scalar(scalar)));
        assert_eq!(classify(text), Some(Kind::Scalar(scalar)));
        assert_eq!(scalar.name_str(), text);
    }
}

#[test]
fn classifies_text() {
    assert_eq!(classify("String"), Some(Kind::Text));
    assert_eq!(element_from_name("String"), Some(ElementKind::Text));
    assert_eq!(scalar_from_name("String"), None);
}

#[test]
fn classifies_every_optional_and_sequence() {
    for (text, scalar) in SCALARS {
        assert_eq!(
            classify(&format!("Option{}", text)),
            Some(Kind::Optional(ElementKind::Scalar(scalar)))
        );
        assert_eq!(
            classify(&format!("Vec{}", text)),
            Some(Kind::Sequence(ElementKind::Scalar(scalar)))
        );
    }
    assert_eq!(classify("OptionString"), Some(Kind::Optional(ElementKind::Text)));
    assert_eq!(classify("VecString"), Some(Kind::Sequence(ElementKind::Text)));
}

#[test]
fn refuses_what_is_outside_the_closed_set() {
    for text in [
        "", "Option", "Vec", "u128", "i128", "usize", "isize", "str", "string", "U8",
        "VecVecu8", "OptionVecu8", "VecOptionu8", "OptionOptionu8", "Boxu8", "u8 ", " u8",
        "Vecu8u8", "HashMapu8u8", "Optionusize", "Vecstr",
    ] {
        assert_eq!(classify(text), None, "{:?}", text);
    }
}

#[test]
fn scalar_widths() {
    let widths = [1, 1, 2, 2, 4, 4, 8, 8, 4, 8, 1, 4];
    for (i, (_, scalar)) in SCALARS.iter().enumerate() {
        assert_eq!(scalar.byte_width(), widths[i]);
        assert_eq!(ScalarType::at(i), *scalar);
        assert_eq!(ElementKind::at(i), ElementKind::Scalar(*scalar));
    }
    assert_eq!(ElementKind::at(12), ElementKind::Text);
    assert_eq!(ElementKind::Text.name_str(), "String");
}

#[test]
fn slots_are_fixed_by_declaration_order() {
    let plan = Plan::assemble("R", &decls(&[("a", "VecString"), ("b", "u8"), ("c", "f64")])).unwrap();
    let slots: Vec<u16> = plan.fields.iter().map(|f| f.slot).collect();
    assert_eq!(slots, vec![4, 6, 8]);
    let plan = Plan::assemble("R", &decls(&[("a", "u8"), ("b", "f64"), ("c", "VecString")])).unwrap();
    let slots: Vec<u16> = plan.fields.iter().map(|f| f.slot).collect();
    assert_eq!(slots, vec![4, 6, 8]);
    assert_eq!(slot_at(0), 4);
    assert_eq!(slot_at(1), 6);
    assert_eq!(slot_at(MAX_FIELDS - 1), 0xFFFC);
}

#[test]
fn priorities_by_kind() {
    let expect = [
        ("u64", 1), ("i64", 1), ("f64", 1), ("Optionu64", 1), ("Optioni64", 1), ("Optionf64", 1),
        ("Vecu8", 2), ("VecString", 2), ("Vecf64", 2), ("Vecchar", 2), ("Vecbool", 2),
        ("String", 4), ("OptionString", 4),
        ("u32", 5), ("i32", 5), ("f32", 5), ("char", 5),
        ("Optionu32", 5), ("Optioni32", 5), ("Optionf32", 5), ("Optionchar", 5),
        ("u16", 6), ("i16", 6), ("Optionu16", 6), ("Optioni16", 6),
        ("u8", 7), ("i8", 7), ("bool", 7), ("Optionu8", 7), ("Optioni8", 7), ("Optionbool", 7),
    ];
    for (text, priority) in expect {
        assert_eq!(classify(text).unwrap().sorting_priority(), priority, "{}", text);
    }
}

#[test]
fn commit_order_is_a_stable_sort_by_priority() {
    let plan = Plan::assemble(
        "Entity",
        &decls(&[
            ("t_u64", "u64"),
            ("t_i64", "i64"),
            ("t_u32", "u32"),
            ("t_i32", "i32"),
            ("t_char", "char"),
            ("t_u16", "u16"),
            ("t_i16", "i16"),
            ("t_u8", "u8"),
            ("t_i8", "i8"),
            ("t_bool", "bool"),
            ("t_string", "String"),
            ("t_vec_string", "VecString"),
            ("t_vec_u8", "Vecu8"),
            ("t_double", "f64"),
            ("t_float", "f32"),
        ]),
    )
    .unwrap();
    assert_eq!(plan.name, "Entity");
    assert_eq!(plan.fields.len(), 15);
    assert_eq!(
        plan.commit_order,
        vec![0, 1, 13, 11, 12, 10, 2, 3, 4, 14, 5, 6, 7, 8, 9]
    );
    for (i, field) in plan.fields.iter().enumerate() {
        assert_eq!(field.declaration_index, i);
        assert_eq!(field.slot as usize, 4 + 2 * i);
        assert_eq!(field.priority, field.kind.sorting_priority());
    }
    assert_eq!(plan.fields[4].name, "t_char");
    assert_eq!(plan.field_kinds()[11], Kind::Sequence(ElementKind::Text));
}

#[test]
fn commit_order_of_nothing_and_of_equals() {
    assert_eq!(commit_order(&vec![]), Vec::<usize>::new());
    let kinds = vec![Kind::Text; 4];
    assert_eq!(commit_order(&kinds), vec![0, 1, 2, 3]);
    let kinds = vec![
        Kind::Scalar(ScalarType::U8),
        Kind::Scalar(ScalarType::U64),
        Kind::Scalar(ScalarType::U8),
        Kind::Scalar(ScalarType::U64),
    ];
    assert_eq!(commit_order(&kinds), vec![1, 3, 0, 2]);
}

#[test]
fn first_unsupported_field_fails_the_record() {
    let made = Plan::assemble(
        "R",
        &decls(&[("ok", "u8"), ("bad", "VecVecu8"), ("worse", "u128")]),
    );
    match made {
        Err(PlanError::UnsupportedType { field, type_text }) => {
            assert_eq!(field, "bad");
            assert_eq!(type_text, "VecVecu8");
        }
        other => panic!("{:?}", other),
    }
}

#[test]
fn too_many_fields_are_refused() {
    let many: Vec<FieldDecl> = (0..MAX_FIELDS + 1)
        .map(|i| FieldDecl {
            name: format!("f{}", i),
            type_text: "u8".to_string(),
        })
        .collect();
    assert!(matches!(
        Plan::assemble("R", &many),
        Err(PlanError::TooManyFields)
    ));
    let most: Vec<FieldDecl> = many.into_iter().take(MAX_FIELDS).collect();
    let plan = Plan::assemble("R", &most).unwrap();
    assert_eq!(plan.fields[MAX_FIELDS - 1].slot, 0xFFFC);
}

#[test]
fn empty_record_has_an_empty_plan() {
    let plan = Plan::assemble("Nothing", &vec![]).unwrap();
    assert!(plan.fields.is_empty());
    assert!(plan.commit_order.is_empty());
}
