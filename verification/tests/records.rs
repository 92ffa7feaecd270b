use lean_buffer::kind::{ElementKind, Kind, ScalarType};
use lean_buffer::plan::{FieldDecl, Omission, Plan, Storage};
use syn::{Data, DeriveInput, GenericArgument, PathArguments, Type};

fn flatten(ty: &Type, out: &mut String) {
    if let Type::Path(type_path) = ty {
        for segment in type_path.path.segments.iter() {
            out.push_str(&segment.ident.to_string());
            if let PathArguments::AngleBracketed(arguments) = &segment.arguments {
                for argument in arguments.args.iter() {
                    if let GenericArgument::Type(inner) = argument {
                        flatten(inner, out);
                    }
                }
            }
        }
    }
}

fn declared(source: &str) -> (String, Vec<FieldDecl>) {
    let input: DeriveInput = syn::parse_str(source).unwrap();
    let fields = match &input.data {
        Data::Struct(data) => &data.fields,
        _ => panic!("Enums are not supported (yet)"),
    };
    let decls = fields
        .iter()
        .map(|field| {
            let mut type_text = String::new();
            flatten(&field.ty, &mut type_text);
            FieldDecl {
                name: field.ident.as_ref().map(|i| i.to_string()).unwrap_or_default(),
                type_text,
            }
        })
        .collect();
    (input.ident.to_string(), decls)
}

#[test]
fn it_works() {
    let (name, decls) = declared(
        r#"
            #[derive(LeanBufferInternal)]
            struct Entity {
                t_u64: u64,
                t_i64: i64,
                t_u32: u32,
                t_i32: i32,
                t_char: char,
                t_u16: u16,
                t_i16: i16,
                t_u8: u8,
                t_i8: i8,
                t_bool: bool,
                t_string: String,
                t_vec_string: Vec<String>,
                t_vec_u8: Vec<u8>,
                t_double: f64,
                t_float: f32,
            }
        "#,
    );
    let plan = Plan::assemble(&name, &decls).unwrap();
    assert!(plan.check());
    assert_eq!(15, plan.fields.len());
}

#[test]
fn declared_types_are_classified() {
    let (name, decls) = declared(
        "struct EntityMixed { a: Option<String>, b: Vec<char>, c: std::string::String, d: Option<f64> }",
    );
    assert_eq!(name, "EntityMixed");
    assert_eq!(decls[0].type_text, "OptionString");
    assert_eq!(decls[2].type_text, "stdstringString");
    let made = Plan::assemble(&name, &decls);
    assert_eq!(made.unwrap_err().message(), "Not supported: stdstringString");

    let (name, decls) = declared(
        "struct EntityMixed { a: Option<String>, b: Vec<char>, d: Option<f64> }",
    );
    let plan = Plan::assemble(&name, &decls).unwrap();
    assert_eq!(
        plan.field_kinds(),
        vec![
            Kind::Optional(ElementKind::Text),
            Kind::Sequence(ElementKind::Scalar(ScalarType::Char)),
            Kind::Optional(ElementKind::Scalar(ScalarType::F64)),
        ]
    );
    assert_eq!(plan.commit_order, vec![2, 1, 0]);
}

#[test]
fn a_plan_changed_by_hand_is_found_out() {
    let (name, decls) = declared("struct E { a: u8, b: u64 }");
    let mut plan = Plan::assemble(&name, &decls).unwrap();
    assert!(plan.check());
    plan.commit_order = vec![0, 1];
    assert!(!plan.check());
    plan.commit_order = vec![1, 0];
    plan.fields[1].slot = 8;
    assert!(!plan.check());
    plan.fields[1].slot = 6;
    plan.fields[0].priority = 1;
    assert!(!plan.check());
    plan.fields[0].priority = 7;
    assert!(plan.check());
}

#[test]
fn storage_and_omission_by_kind() {
    let scalar = Kind::Scalar(ScalarType::I32);
    let optional = Kind::Optional(ElementKind::Scalar(ScalarType::I32));
    let optional_text = Kind::Optional(ElementKind::Text);
    let sequence = Kind::Sequence(ElementKind::Scalar(ScalarType::I32));
    assert_eq!(scalar.storage_class(), Storage::Inline);
    assert_eq!(optional.storage_class(), Storage::Inline);
    assert_eq!(optional_text.storage_class(), Storage::Indirect);
    assert_eq!(Kind::Text.storage_class(), Storage::Indirect);
    assert_eq!(sequence.storage_class(), Storage::Indirect);
    assert_eq!(scalar.omission_rule(), Omission::WhenDefault);
    assert_eq!(optional.omission_rule(), Omission::WhenAbsent);
    assert_eq!(optional_text.omission_rule(), Omission::WhenAbsent);
    assert_eq!(Kind::Text.omission_rule(), Omission::Never);
    assert_eq!(sequence.omission_rule(), Omission::Never);
}
