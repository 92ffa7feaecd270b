use lean_buffer::merge::{
    append_lines, choose_texts, glob_and_merge_generated_files, holds, match_names, merge_matched,
    merge_extern_and_use, merge_files, merge_items, remove_string_duplicates, sort_items,
    strip_extern_and_use,
    GeneratedFile, Imports, ItemClass, MergeError, SourceItem,
};
use quote::ToTokens;

fn strings(items: &[&str]) -> Vec<String> {
    items.iter().map(|s| s.to_string()).collect()
}

fn parse_error(made: Result<String, MergeError>) -> String {
    match made {
        Err(MergeError::Parse(error)) => error.to_string(),
        other => panic!("{:?}", other),
    }
}

fn pattern_error(made: Result<String, MergeError>) -> String {
    match made {
        Err(MergeError::BadPattern(error)) => error.to_string(),
        other => panic!("{:?}", other),
    }
}

fn printed(source: &str) -> Vec<String> {
    syn::parse_file(source)
        .unwrap()
        .items
        .iter()
        .map(|item| item.to_token_stream().to_string())
        .collect()
}

const FIRST: &str = "extern crate alloc;\nuse std::fmt;\nuse a::b;\nstruct One { x: u8 }\nfn one() {}\n";
const SECOND: &str = "use a::b;\nextern crate alloc;\nextern crate core;\nimpl One { fn two(&self) {} }\nuse c::d;\n";

#[test]
fn strip_sorts_items_by_class() {
    let mut imports = Imports { externs: strings(&["kept"]), uses: vec![] };
    let mut rest = String::from("// before\n");
    assert!(strip_extern_and_use(FIRST, &mut imports, &mut rest).is_ok());
    let items = printed(FIRST);
    assert_eq!(imports.externs, vec!["kept".to_string(), items[0].clone()]);
    assert_eq!(imports.uses, vec![items[1].clone(), items[2].clone()]);
    assert_eq!(rest, format!("// before\n{}{}", items[3], items[4]));
    assert_ne!(imports.uses[0], "use std::fmt;\n");
    assert!(imports.uses[0].starts_with("use"));
    assert!(imports.externs[1].contains("alloc"));
}

#[test]
fn strip_leaves_everything_as_it_was_on_a_parse_error() {
    let mut imports = Imports { externs: strings(&["a"]), uses: strings(&["b"]) };
    let mut rest = String::from("c");
    match strip_extern_and_use("fn broken( {", &mut imports, &mut rest) {
        Err(MergeError::Parse(error)) => assert_eq!(
            error.to_string(),
            syn::parse_file("fn broken( {").unwrap_err().to_string()
        ),
        other => panic!("{:?}", other),
    }
    assert_eq!(imports.externs, strings(&["a"]));
    assert_eq!(imports.uses, strings(&["b"]));
    assert_eq!(rest, "c");
}

#[test]
fn duplicates_are_removed_and_first_occurrences_stay_in_place() {
    assert_eq!(
        remove_string_duplicates(&strings(&["b", "a", "b", "c", "a", "b"])),
        strings(&["b", "a", "c"])
    );
    assert_eq!(remove_string_duplicates(&vec![]), Vec::<String>::new());
    assert_eq!(remove_string_duplicates(&strings(&["x"])), strings(&["x"]));
    let once = remove_string_duplicates(&strings(&["q", "q", "r"]));
    assert_eq!(remove_string_duplicates(&once), once);
    assert!(holds(&once, "r"));
    assert!(!holds(&once, "s"));
}

#[test]
fn lines_are_joined_with_line_breaks() {
    let mut out = String::from(">");
    append_lines(&mut out, &strings(&["a", "b", "c"]));
    assert_eq!(out, ">a\nb\nc");
    let mut out = String::new();
    append_lines(&mut out, &vec![]);
    assert_eq!(out, "");
    append_lines(&mut out, &strings(&["only"]));
    assert_eq!(out, "only");
}

#[test]
fn imports_are_merged_each_once() {
    let imports = Imports {
        externs: strings(&["extern crate a ;", "extern crate b ;", "extern crate a ;"]),
        uses: strings(&["use x ;", "use x ;", "use y ;"]),
    };
    let mut out = String::from("#");
    assert!(merge_extern_and_use(&imports, &mut out).is_ok());
    assert_eq!(out, "#extern crate a ;\nextern crate b ;use x ;\nuse y ;");
}

#[test]
fn files_are_merged_with_imports_first() {
    let merged = merge_files(&strings(&[FIRST, SECOND])).unwrap();
    let first = printed(FIRST);
    let second = printed(SECOND);
    let expected = format!(
        "{}\n{}{}\n{}\n{}{}{}{}",
        first[0], second[2], first[1], first[2], second[4], first[3], first[4], second[3]
    );
    assert_eq!(merged, expected);
    assert!(syn::parse_file(&merged).is_ok());
    assert_eq!(merge_files(&vec![]).unwrap(), "");
}

#[test]
fn one_broken_file_fails_the_merge() {
    assert_eq!(
        parse_error(merge_files(&strings(&[FIRST, "struct {", SECOND]))),
        syn::parse_file("struct {").unwrap_err().to_string()
    );
}

#[test]
fn glob_selects_the_files_to_merge() {
    let files = vec![
        GeneratedFile { name: "One_lb_gen.rs".to_string(), text: FIRST.to_string() },
        GeneratedFile { name: "notes.txt".to_string(), text: "not rust {".to_string() },
        GeneratedFile { name: "Two_lb_gen.rs".to_string(), text: SECOND.to_string() },
        GeneratedFile { name: "merged_gen.lb.rs".to_string(), text: "fn other() {}".to_string() },
    ];
    let merged = glob_and_merge_generated_files(&files, "*_lb_gen.rs").unwrap();
    assert_eq!(merged, merge_files(&strings(&[FIRST, SECOND])).unwrap());
    let all = glob_and_merge_generated_files(&files, "*");
    assert_eq!(
        parse_error(all),
        syn::parse_file("not rust {").unwrap_err().to_string()
    );
    let none = glob_and_merge_generated_files(&files, "?").unwrap();
    assert_eq!(none, "");
    let one = glob_and_merge_generated_files(&files, "[A-Z]wo_lb_gen.rs").unwrap();
    assert_eq!(one, merge_files(&strings(&[SECOND])).unwrap());
}

#[test]
fn a_bad_pattern_fails_whatever_the_files() {
    let files = vec![GeneratedFile {
        name: "One_lb_gen.rs".to_string(),
        text: FIRST.to_string(),
    }];
    assert_eq!(
        pattern_error(glob_and_merge_generated_files(&files, "a***b")),
        glob::Pattern::new("a***b").unwrap_err().to_string()
    );
    assert_eq!(
        pattern_error(glob_and_merge_generated_files(&vec![], "[unclosed")),
        glob::Pattern::new("[unclosed").unwrap_err().to_string()
    );
}

#[test]
fn generated_files_are_named_after_their_record() {
    assert_eq!(
        lean_buffer::merge::generated_file_name("Entity"),
        "Entity_lb_gen.rs"
    );
}

#[test]
fn items_are_sorted_by_class() {
    let items = vec![
        SourceItem { class: ItemClass::Other, text: "struct A ;".to_string() },
        SourceItem { class: ItemClass::Use, text: "use a ;".to_string() },
        SourceItem { class: ItemClass::ExternCrate, text: "extern crate e ;".to_string() },
        SourceItem { class: ItemClass::Other, text: "struct B ;".to_string() },
        SourceItem { class: ItemClass::Use, text: "use b ;".to_string() },
    ];
    let mut imports = Imports { externs: vec![], uses: strings(&["use z ;"]) };
    let mut rest = String::new();
    sort_items(&items, &mut imports, &mut rest);
    assert_eq!(imports.externs, strings(&["extern crate e ;"]));
    assert_eq!(imports.uses, strings(&["use z ;", "use a ;", "use b ;"]));
    assert_eq!(rest, "struct A ;struct B ;");
    sort_items(&vec![], &mut imports, &mut rest);
    assert_eq!(imports.uses.len(), 3);
    assert_eq!(rest, "struct A ;struct B ;");
}

#[test]
fn names_are_matched_and_texts_chosen() {
    let files = vec![
        GeneratedFile { name: "a.rs".to_string(), text: "A".to_string() },
        GeneratedFile { name: "b.txt".to_string(), text: "B".to_string() },
        GeneratedFile { name: "c.rs".to_string(), text: "C".to_string() },
    ];
    assert_eq!(match_names(&files, "*.rs").unwrap(), vec![true, false, true]);
    assert_eq!(match_names(&files, "b.*").unwrap(), vec![false, true, false]);
    assert_eq!(match_names(&files, "A.rs").unwrap(), vec![false, false, false]);
    assert_eq!(
        match_names(&files, "a***").unwrap_err().to_string(),
        glob::Pattern::new("a***").unwrap_err().to_string()
    );
    assert_eq!(match_names(&vec![], "*").unwrap(), Vec::<bool>::new());
    assert_eq!(choose_texts(&files, &vec![true, false, true]), strings(&["A", "C"]));
    assert_eq!(choose_texts(&files, &vec![false, false, false]), Vec::<String>::new());
    assert_eq!(choose_texts(&files, &vec![true, true, true]), strings(&["A", "B", "C"]));
}

#[test]
fn items_of_files_are_merged_with_imports_first() {
    let item = |class: ItemClass, text: &str| SourceItem { class, text: text.to_string() };
    let files = vec![
        vec![
            item(ItemClass::Use, "use a ;"),
            item(ItemClass::Other, "struct A ;"),
            item(ItemClass::ExternCrate, "extern crate e ;"),
        ],
        vec![],
        vec![
            item(ItemClass::ExternCrate, "extern crate e ;"),
            item(ItemClass::Use, "use b ;"),
            item(ItemClass::Use, "use a ;"),
            item(ItemClass::Other, "struct B ;"),
        ],
    ];
    assert_eq!(
        merge_items(&files),
        "extern crate e ;use a ;\nuse b ;struct A ;struct B ;"
    );
    assert_eq!(merge_items(&vec![]), "");
}

#[test]
fn matched_files_are_merged_as_the_answers_say() {
    let files = vec![
        GeneratedFile { name: "a.rs".to_string(), text: FIRST.to_string() },
        GeneratedFile { name: "b.rs".to_string(), text: "not rust {".to_string() },
        GeneratedFile { name: "c.rs".to_string(), text: SECOND.to_string() },
    ];
    assert_eq!(
        merge_matched(&files, Ok(vec![true, false, true])).unwrap(),
        merge_files(&strings(&[FIRST, SECOND])).unwrap()
    );
    assert_eq!(
        merge_matched(&files, Ok(vec![false, false, true])).unwrap(),
        merge_files(&strings(&[SECOND])).unwrap()
    );
    assert_eq!(merge_matched(&files, Ok(vec![false, false, false])).unwrap(), "");
    assert_eq!(merge_matched(&vec![], Ok(vec![])).unwrap(), "");
    assert_eq!(
        parse_error(merge_matched(&files, Ok(vec![false, true, false]))),
        syn::parse_file("not rust {").unwrap_err().to_string()
    );
    let refused = glob::Pattern::new("a***").unwrap_err();
    assert_eq!(
        pattern_error(merge_matched(&files, Err(refused))),
        glob::Pattern::new("a***").unwrap_err().to_string()
    );
}

#[test]
fn merging_nothing_gives_the_empty_text() {
    assert_eq!(merge_files(&vec![]).unwrap(), "");
    assert_eq!(glob_and_merge_generated_files(&vec![], "*").unwrap(), "");
    let files = vec![GeneratedFile {
        name: "notes.txt".to_string(),
        text: "not rust {".to_string(),
    }];
    assert_eq!(glob_and_merge_generated_files(&files, "*.rs").unwrap(), "");
}
