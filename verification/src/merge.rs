//! Merging generated source files: the `extern crate` and `use` items of
//! all files come first, each once, and the remaining items follow.

use crate::text::str_eq;
use quote::ToTokens;
use vstd::prelude::*;
use vstd::string::StringExecFns;

verus! {

/// What an item of a source file is, as far as merging cares.
#[derive(Clone, Copy, Debug, PartialEq, Eq, Structural)]
pub enum ItemClass {
    ExternCrate,
    Use,
    Other,
}

/// One item of a source file: its class and its text.
#[derive(Debug)]
pub struct SourceItem {
    pub class: ItemClass,
    pub text: String,
}

/// The mathematical content of a [`SourceItem`].
pub struct SourceItemView {
    pub class: ItemClass,
    pub text: Seq<char>,
}

impl View for SourceItem {
    type V = SourceItemView;

    open spec fn view(&self) -> SourceItemView {
        SourceItemView { class: self.class, text: self.text@ }
    }
}

/// The `extern crate` and `use` items collected from source files, as
/// text.
#[derive(Debug)]
pub struct Imports {
    pub externs: Vec<String>,
    pub uses: Vec<String>,
}

/// A generated file: its name and its text.
#[derive(Debug)]
pub struct GeneratedFile {
    pub name: String,
    pub text: String,
}

/// Why files were not merged.
#[derive(Debug)]
pub enum MergeError {
    /// A source text is no Rust source file. Holds what the parser said.
    Parse(syn::Error),
    /// The pattern that selects the files is no glob pattern. Holds what
    /// `glob` said.
    BadPattern(glob::PatternError),
}

/// The contents of a list of strings.
pub open spec fn texts_view(strings: Seq<String>) -> Seq<Seq<char>> {
    Seq::new(strings.len(), |i: int| strings[i]@)
}

/// The contents of a list of items.
pub open spec fn source_view(items: Seq<SourceItem>) -> Seq<SourceItemView> {
    Seq::new(items.len(), |i: int| items[i]@)
}

/// The texts of the items of class `class`, in order.
pub open spec fn texts_of(items: Seq<SourceItemView>, class: ItemClass) -> Seq<Seq<char>>
    decreases items.len(),
{
    if items.len() == 0 {
        Seq::empty()
    } else if items.last().class == class {
        texts_of(items.drop_last(), class).push(items.last().text)
    } else {
        texts_of(items.drop_last(), class)
    }
}

/// The texts one after the other.
pub open spec fn concat(texts: Seq<Seq<char>>) -> Seq<char>
    decreases texts.len(),
{
    if texts.len() == 0 {
        Seq::empty()
    } else {
        concat(texts.drop_last()) + texts.last()
    }
}

/// The texts one after the other, with a line break between every two.
pub open spec fn join_lines(texts: Seq<Seq<char>>) -> Seq<char>
    decreases texts.len(),
{
    if texts.len() == 0 {
        Seq::empty()
    } else if texts.len() == 1 {
        texts[0]
    } else {
        join_lines(texts.drop_last()) + seq!['\n'] + texts.last()
    }
}

/// The texts without repetition: each stands where it first occurs.
pub open spec fn dedup(texts: Seq<Seq<char>>) -> Seq<Seq<char>>
    decreases texts.len(),
{
    if texts.len() == 0 {
        Seq::empty()
    } else if dedup(texts.drop_last()).contains(texts.last()) {
        dedup(texts.drop_last())
    } else {
        dedup(texts.drop_last()).push(texts.last())
    }
}

/// The error of `syn`: why a text does not parse.
#[verifier::external_type_specification]
#[verifier::external_body]
pub struct ExSynError(syn::Error);

/// The error of `glob`: why a text is no pattern.
#[verifier::external_type_specification]
#[verifier::external_body]
pub struct ExPatternError(glob::PatternError);

/// The items of a source file, by `syn::parse_file`, each with the text
/// that `quote::ToTokens::to_token_stream` and `to_string` give it; an
/// input that `syn` refuses gives its error. Nothing is claimed of the
/// items: inside a procedural macro `syn` reads with the compiler's own
/// lexer, so they are not a function of the text alone.
#[verifier::external_body]
fn parse_items(input: &str) -> (found: Result<Vec<SourceItem>, syn::Error>) {
    let file = syn::parse_file(input)?;
    let class = |item: &syn::Item| match item {
        syn::Item::ExternCrate(_) => ItemClass::ExternCrate,
        syn::Item::Use(_) => ItemClass::Use,
        _ => ItemClass::Other,
    };
    let text = |item: &syn::Item| item.to_token_stream().to_string();
    Ok(file.items.iter().map(|item| SourceItem { class: class(item), text: text(item) }).collect())
}

/// Whether a glob pattern matches a name, by `glob::Pattern::new` and
/// `glob::Pattern::matches`; a pattern that `glob` refuses gives its
/// error. Nothing is claimed of the answer: `glob` goes by the path
/// separators of the machine it runs on.
#[verifier::external_body]
fn pattern_matches(pattern: &str, name: &str) -> (found: Result<bool, glob::PatternError>) {
    Ok(glob::Pattern::new(pattern)?.matches(name))
}

/// Whether sorting `items` by class turns the first three collections
/// into the last three: the `extern crate` items are added to the first,
/// the `use` items to the second, the text of every other item to the
/// third.
pub open spec fn sorted_into(
    items: Seq<SourceItemView>,
    externs: Seq<Seq<char>>,
    uses: Seq<Seq<char>>,
    rest: Seq<char>,
    new_externs: Seq<Seq<char>>,
    new_uses: Seq<Seq<char>>,
    new_rest: Seq<char>,
) -> bool {
    &&& new_externs == externs + texts_of(items, ItemClass::ExternCrate)
    &&& new_uses == uses + texts_of(items, ItemClass::Use)
    &&& new_rest == rest + concat(texts_of(items, ItemClass::Other))
}

/// Takes the `extern crate` and `use` items out of a source file.
///
/// Where `input` parses, its items are sorted as [`sort_items`] does: the
/// `extern crate` items are added to `item_output.externs`, the `use`
/// items to `item_output.uses`, and the text of every other item to
/// `output`. Where it does not, nothing changes, and the error holds what
/// the parser said.
pub fn strip_extern_and_use(input: &str, item_output: &mut Imports, output: &mut String) -> (done:
    Result<(), MergeError>)
    ensures
        match done {
            Ok(_) => exists|items: Seq<SourceItemView>|
                sorted_into(
                    items,
                    texts_view(old(item_output).externs@),
                    texts_view(old(item_output).uses@),
                    old(output)@,
                    texts_view(final(item_output).externs@),
                    texts_view(final(item_output).uses@),
                    final(output)@,
                ),
            Err(error) => {
                &&& error is Parse
                &&& texts_view(final(item_output).externs@) == texts_view(old(item_output).externs@)
                &&& texts_view(final(item_output).uses@) == texts_view(old(item_output).uses@)
                &&& final(output)@ == old(output)@
            },
        },
{
    match parse_items(input) {
        Err(error) => Err(MergeError::Parse(error)),
        Ok(items) => {
            sort_items(&items, item_output, output);
            assert(sorted_into(
                source_view(items@),
                texts_view(old(item_output).externs@),
                texts_view(old(item_output).uses@),
                old(output)@,
                texts_view(item_output.externs@),
                texts_view(item_output.uses@),
                output@,
            ));
            Ok(())
        },
    }
}

/// Sorts the items of a source file by class: the `extern crate` items are
/// added to `item_output.externs`, the `use` items to `item_output.uses`,
/// and the text of every other item to `output`.
pub fn sort_items(items: &Vec<SourceItem>, item_output: &mut Imports, output: &mut String)
    ensures
        texts_view(final(item_output).externs@) == texts_view(old(item_output).externs@)
            + texts_of(source_view(items@), ItemClass::ExternCrate),
        texts_view(final(item_output).uses@) == texts_view(old(item_output).uses@) + texts_of(
            source_view(items@),
            ItemClass::Use,
        ),
        final(output)@ == old(output)@ + concat(texts_of(source_view(items@), ItemClass::Other)),
{
    let ghost all = source_view(items@);
    let mut i: usize = 0;
    proof {
        assert(all.take(0) =~= Seq::empty());
        assert(texts_view(item_output.externs@) + Seq::<Seq<char>>::empty() =~= texts_view(
            item_output.externs@,
        ));
        assert(texts_view(item_output.uses@) + Seq::<Seq<char>>::empty() =~= texts_view(
            item_output.uses@,
        ));
        assert(output@ + Seq::<char>::empty() =~= output@);
    }
    while i < items.len()
        invariant
            i <= items@.len(),
            all == source_view(items@),
            texts_view(item_output.externs@) == texts_view(old(item_output).externs@) + texts_of(
                all.take(i as int),
                ItemClass::ExternCrate,
            ),
            texts_view(item_output.uses@) == texts_view(old(item_output).uses@) + texts_of(
                all.take(i as int),
                ItemClass::Use,
            ),
            output@ == old(output)@ + concat(texts_of(all.take(i as int), ItemClass::Other)),
        decreases items@.len() - i,
    {
        let item = &items[i];
        let ghost externs = texts_view(item_output.externs@);
        let ghost uses = texts_view(item_output.uses@);
        proof {
            assert(all.take(i + 1).drop_last() =~= all.take(i as int));
            assert(all.take(i + 1).last() == items@[i as int]@);
        }
        match item.class {
            ItemClass::ExternCrate => {
                item_output.externs.push(item.text.clone());
                assert(texts_view(item_output.externs@) =~= externs.push(item.text@));
                assert(externs.push(item.text@) =~= texts_view(old(item_output).externs@)
                    + texts_of(all.take(i + 1), ItemClass::ExternCrate));
            },
            ItemClass::Use => {
                item_output.uses.push(item.text.clone());
                assert(texts_view(item_output.uses@) =~= uses.push(item.text@));
                assert(uses.push(item.text@) =~= texts_view(old(item_output).uses@) + texts_of(
                    all.take(i + 1),
                    ItemClass::Use,
                ));
            },
            ItemClass::Other => {
                let ghost before = output@;
                let ghost others = texts_of(all.take(i as int), ItemClass::Other);
                output.append(item.text.as_str());
                assert(others.push(item.text@).drop_last() =~= others);
                assert(texts_of(all.take(i + 1), ItemClass::Other) == others.push(item.text@));
                assert(before + item.text@ =~= old(output)@ + concat(
                    texts_of(all.take(i + 1), ItemClass::Other),
                ));
            },
        }
        i += 1;
    }
    assert(all.take(i as int) =~= all);
}

/// Whether `strings` holds a string with the characters of `wanted`.
pub fn holds(strings: &Vec<String>, wanted: &str) -> (found: bool)
    ensures
        found == texts_view(strings@).contains(wanted@),
{
    let mut i: usize = 0;
    while i < strings.len()
        invariant
            i <= strings@.len(),
            forall|j: int| 0 <= j < i ==> texts_view(strings@)[j] != wanted@,
        decreases strings@.len() - i,
    {
        if str_eq(strings[i].as_str(), wanted) {
            assert(texts_view(strings@)[i as int] == wanted@);
            return true;
        }
        i += 1;
    }
    false
}

/// Removes the repetitions from a list of strings. Each string stays where
/// it first occurs.
pub fn remove_string_duplicates(strings: &Vec<String>) -> (unique: Vec<String>)
    ensures
        texts_view(unique@) == dedup(texts_view(strings@)),
{
    let ghost all = texts_view(strings@);
    let mut unique: Vec<String> = Vec::new();
    let mut i: usize = 0;
    proof {
        assert(all.take(0) =~= Seq::empty());
        assert(texts_view(unique@) =~= Seq::empty());
    }
    while i < strings.len()
        invariant
            i <= strings@.len(),
            all == texts_view(strings@),
            texts_view(unique@) == dedup(all.take(i as int)),
        decreases strings@.len() - i,
    {
        let ghost before = texts_view(unique@);
        proof {
            assert(all.take(i + 1).drop_last() =~= all.take(i as int));
            assert(all.take(i + 1).last() == strings@[i as int]@);
        }
        if !holds(&unique, strings[i].as_str()) {
            unique.push(strings[i].clone());
            assert(texts_view(unique@) =~= before.push(strings@[i as int]@));
        }
        i += 1;
    }
    assert(all.take(i as int) =~= all);
    unique
}

/// Adds the strings to `out`, with a line break between every two.
pub fn append_lines(out: &mut String, lines: &Vec<String>)
    ensures
        final(out)@ == old(out)@ + join_lines(texts_view(lines@)),
{
    let ghost all = texts_view(lines@);
    let mut i: usize = 0;
    proof {
        assert(all.take(0) =~= Seq::empty());
        assert(out@ + Seq::<char>::empty() =~= out@);
    }
    while i < lines.len()
        invariant
            i <= lines@.len(),
            all == texts_view(lines@),
            out@ == old(out)@ + join_lines(all.take(i as int)),
        decreases lines@.len() - i,
    {
        let ghost before = out@;
        proof {
            assert(all.take(i + 1).drop_last() =~= all.take(i as int));
            assert(all.take(i + 1).last() == lines@[i as int]@);
            reveal_strlit("\n");
            assert("\n"@ =~= seq!['\n']);
        }
        if i > 0 {
            out.append("\n");
        }
        out.append(lines[i].as_str());
        proof {
            if i == 0 {
                assert(all.take(1)[0] == lines@[0]@);
                assert(before + lines@[0]@ =~= old(out)@ + join_lines(all.take(1)));
            } else {
                assert(before + seq!['\n'] + lines@[i as int]@ =~= old(out)@ + join_lines(
                    all.take(i + 1),
                ));
            }
        }
        i += 1;
    }
    assert(all.take(i as int) =~= all);
}

/// The text that merging writes for collected imports: the `extern crate`
/// items without repetition, one per line, directly followed by the `use`
/// items without repetition, one per line.
pub open spec fn merged_imports(externs: Seq<Seq<char>>, uses: Seq<Seq<char>>) -> Seq<char> {
    join_lines(dedup(externs)) + join_lines(dedup(uses))
}

/// Adds the collected imports to `out`, each once.
pub fn merge_extern_and_use(item_input: &Imports, out: &mut String) -> (done: Result<
    (),
    MergeError,
>)
    ensures
        done is Ok,
        final(out)@ == old(out)@ + merged_imports(
            texts_view(item_input.externs@),
            texts_view(item_input.uses@),
        ),
{
    let externs = remove_string_duplicates(&item_input.externs);
    let uses = remove_string_duplicates(&item_input.uses);
    append_lines(out, &externs);
    append_lines(out, &uses);
    assert(out@ =~= old(out)@ + merged_imports(
        texts_view(item_input.externs@),
        texts_view(item_input.uses@),
    ));
    Ok(())
}

/// The contents of the items of a list of files.
pub open spec fn files_view(files: Seq<Vec<SourceItem>>) -> Seq<Seq<SourceItemView>> {
    Seq::new(files.len(), |i: int| source_view(files[i]@))
}

/// The merged text of the files from the `i`-th on, given what the files
/// before it gave.
pub open spec fn gathered(
    files: Seq<Seq<SourceItemView>>,
    i: nat,
    externs: Seq<Seq<char>>,
    uses: Seq<Seq<char>>,
    rest: Seq<char>,
) -> Seq<char>
    decreases files.len() - i,
{
    if i >= files.len() {
        merged_imports(externs, uses) + rest
    } else {
        gathered(
            files,
            i + 1,
            externs + texts_of(files[i as int], ItemClass::ExternCrate),
            uses + texts_of(files[i as int], ItemClass::Use),
            rest + concat(texts_of(files[i as int], ItemClass::Other)),
        )
    }
}

/// The merged text of files, each given by its items: the imports of all
/// files, each once, and behind them every other item of every file, in
/// the order of the files.
pub open spec fn merged_items(files: Seq<Seq<SourceItemView>>) -> Seq<char> {
    gathered(files, 0, Seq::empty(), Seq::empty(), Seq::empty())
}

/// Merges files that are given by their items.
pub fn merge_items(files: &Vec<Vec<SourceItem>>) -> (out: String)
    ensures
        out@ == merged_items(files_view(files@)),
{
    let ghost all = files_view(files@);
    let mut imports = Imports { externs: Vec::new(), uses: Vec::new() };
    let mut rest = String::new();
    let mut i: usize = 0;
    proof {
        assert(texts_view(imports.externs@) =~= Seq::empty());
        assert(texts_view(imports.uses@) =~= Seq::empty());
    }
    while i < files.len()
        invariant
            i <= files@.len(),
            all == files_view(files@),
            gathered(
                all,
                i as nat,
                texts_view(imports.externs@),
                texts_view(imports.uses@),
                rest@,
            ) == merged_items(all),
        decreases files@.len() - i,
    {
        proof {
            assert(all[i as int] == source_view(files@[i as int]@));
        }
        sort_items(&files[i], &mut imports, &mut rest);
        i += 1;
    }
    let mut out = String::new();
    let done = merge_extern_and_use(&imports, &mut out);
    assert(done is Ok);
    out.append(rest.as_str());
    assert(out@ =~= merged_imports(texts_view(imports.externs@), texts_view(imports.uses@))
        + rest@);
    out
}

/// Whether `out` is what [`merge_items`] makes of `count` files.
pub open spec fn is_merge_of(out: Seq<char>, count: nat) -> bool {
    exists|files: Seq<Seq<SourceItemView>>| files.len() == count && out == merged_items(files)
}

/// What merging the texts `sources` can come to. Success gives what
/// [`merge_items`] makes of the items of the texts, one list of items for
/// each. Failure is the parser's, so there is none where there is no text:
/// merging nothing gives the empty text.
pub open spec fn merge_outcome(sources: Seq<Seq<char>>, made: Result<String, MergeError>) -> bool {
    match made {
        Ok(out) => is_merge_of(out@, sources.len()),
        Err(error) => error is Parse && sources.len() > 0,
    }
}

/// Merging no files gives the empty text.
pub proof fn lemma_merge_of_nothing(out: Seq<char>)
    requires
        is_merge_of(out, 0),
    ensures
        out == Seq::<char>::empty(),
{
    let files = choose|files: Seq<Seq<SourceItemView>>|
        files.len() == 0 && out == merged_items(files);
    assert(dedup(Seq::<Seq<char>>::empty()) =~= Seq::<Seq<char>>::empty());
    assert(merged_items(files) =~= Seq::<char>::empty());
}

/// Merges the texts of source files. Fails, with nothing merged, where one
/// of them does not parse; else the result is what [`merge_items`] makes
/// of the items of the files. No text at all gives the empty text.
pub fn merge_files(sources: &Vec<String>) -> (made: Result<String, MergeError>)
    ensures
        merge_outcome(texts_view(sources@), made),
        sources@.len() == 0 ==> (made matches Ok(out) && out@ == Seq::<char>::empty()),
{
    let mut files: Vec<Vec<SourceItem>> = Vec::new();
    let mut i: usize = 0;
    while i < sources.len()
        invariant
            i <= sources@.len(),
            files@.len() == i,
        decreases sources@.len() - i,
    {
        match parse_items(sources[i].as_str()) {
            Err(error) => {
                return Err(MergeError::Parse(error));
            },
            Ok(items) => {
                files.push(items);
            },
        }
        i += 1;
    }
    let out = merge_items(&files);
    proof {
        assert(files_view(files@).len() == sources@.len());
        assert(is_merge_of(out@, texts_view(sources@).len()));
        if sources@.len() == 0 {
            lemma_merge_of_nothing(out@);
        }
    }
    Ok(out)
}

/// The texts of the files that are chosen, in order.
pub open spec fn chosen_texts(files: Seq<GeneratedFile>, chosen: Seq<bool>) -> Seq<Seq<char>>
    decreases files.len(),
{
    if files.len() == 0 {
        Seq::empty()
    } else if chosen[files.len() - 1] {
        chosen_texts(files.drop_last(), chosen).push(files.last().text@)
    } else {
        chosen_texts(files.drop_last(), chosen)
    }
}

/// Tells for each file whether the pattern matches its name; fails, with
/// what `glob` said, where the pattern is no glob pattern.
pub fn match_names(files: &Vec<GeneratedFile>, pattern: &str) -> (found: Result<
    Vec<bool>,
    glob::PatternError,
>)
    ensures
        found matches Ok(chosen) ==> chosen@.len() == files@.len(),
{
    match pattern_matches(pattern, "") {
        Err(error) => {
            return Err(error);
        },
        Ok(_) => {},
    }
    let mut chosen: Vec<bool> = Vec::new();
    let mut i: usize = 0;
    while i < files.len()
        invariant
            i <= files@.len(),
            chosen@.len() == i,
        decreases files@.len() - i,
    {
        match pattern_matches(pattern, files[i].name.as_str()) {
            Ok(hit) => {
                chosen.push(hit);
            },
            Err(error) => {
                return Err(error);
            },
        }
        i += 1;
    }
    Ok(chosen)
}

/// The texts of the files that are chosen, in order.
pub fn choose_texts(files: &Vec<GeneratedFile>, chosen: &Vec<bool>) -> (texts: Vec<String>)
    requires
        chosen@.len() == files@.len(),
    ensures
        texts_view(texts@) == chosen_texts(files@, chosen@),
{
    let mut texts: Vec<String> = Vec::new();
    let mut i: usize = 0;
    proof {
        assert(files@.take(0) =~= Seq::empty());
        assert(texts_view(texts@) =~= Seq::empty());
    }
    while i < files.len()
        invariant
            i <= files@.len(),
            chosen@.len() == files@.len(),
            texts_view(texts@) == chosen_texts(files@.take(i as int), chosen@),
        decreases files@.len() - i,
    {
        let ghost before = texts_view(texts@);
        proof {
            assert(files@.take(i + 1).drop_last() =~= files@.take(i as int));
            assert(files@.take(i + 1).last() == files@[i as int]);
        }
        if chosen[i] {
            texts.push(files[i].text.clone());
            assert(texts_view(texts@) =~= before.push(files@[i as int].text@));
        }
        i += 1;
    }
    assert(files@.take(i as int) =~= files@);
    texts
}

/// Merges the files for which matching gave an answer, as the answers say.
///
/// Where matching failed, so does the merge, with what `glob` said. Where
/// it gave an answer for each file, the chosen files are merged as
/// [`merge_files`] merges their texts, in the order given: a file that is
/// not chosen adds nothing, and where none is chosen the result is the
/// empty text.
pub fn merge_matched(
    files: &Vec<GeneratedFile>,
    matched: Result<Vec<bool>, glob::PatternError>,
) -> (made: Result<String, MergeError>)
    requires
        matched matches Ok(chosen) ==> chosen@.len() == files@.len(),
    ensures
        match matched {
            Ok(chosen) => merge_outcome(chosen_texts(files@, chosen@), made),
            Err(_) => made matches Err(error) && error is BadPattern,
        },
{
    match matched {
        Err(error) => Err(MergeError::BadPattern(error)),
        Ok(chosen) => {
            let sources = choose_texts(files, &chosen);
            merge_files(&sources)
        },
    }
}

/// Merges the generated files whose name matches a glob pattern, in the
/// order given.
///
/// Fails with [`MergeError::BadPattern`] where the pattern is no glob
/// pattern, and with [`MergeError::Parse`] where a chosen file does not
/// parse. Else the result is what [`merge_matched`] makes of the answers
/// of `glob`: the merged text of the chosen files, which is empty where
/// none is chosen.
pub fn glob_and_merge_generated_files(files: &Vec<GeneratedFile>, suffix_pattern: &str) -> (made:
    Result<String, MergeError>)
    ensures
        (made matches Err(error) && error is BadPattern) || exists|chosen: Seq<bool>|
            chosen.len() == files@.len() && merge_outcome(
                #[trigger] chosen_texts(files@, chosen),
                made,
            ),
{
    let matched = match_names(files, suffix_pattern);
    let ghost answers = matched;
    let made = merge_matched(files, matched);
    proof {
        if answers is Ok {
            let chosen = answers->Ok_0@;
            assert(merge_outcome(chosen_texts(files@, chosen), made));
        }
    }
    made
}

/// The name of the file that holds the generated converters of the record
/// `record`: the record's name followed by `_lb_gen.rs`.
pub fn generated_file_name(record: &str) -> (name: String)
    ensures
        name@ == record@ + "_lb_gen.rs"@,
{
    String::from_str(record).concat("_lb_gen.rs")
}

/// What [`dedup`] keeps: every text of the list, once.
pub proof fn lemma_dedup_keeps_each_once(texts: Seq<Seq<char>>)
    ensures
        dedup(texts).no_duplicates(),
        forall|t: Seq<char>| dedup(texts).contains(t) <==> texts.contains(t),
    decreases texts.len(),
{
    if texts.len() > 0 {
        let front = texts.drop_last();
        let last = texts.last();
        lemma_dedup_keeps_each_once(front);
        let kept = dedup(front);
        assert forall|t: Seq<char>| dedup(texts).contains(t) <==> texts.contains(t) by {
            if texts.contains(t) {
                let i = choose|i: int| 0 <= i < texts.len() && texts[i] == t;
                if i < front.len() {
                    assert(front[i] == t);
                    assert(front.contains(t));
                    assert(kept.contains(t));
                    if !kept.contains(last) {
                        let j = choose|j: int| 0 <= j < kept.len() && kept[j] == t;
                        assert(kept.push(last)[j] == t);
                    }
                } else {
                    if !kept.contains(last) {
                        assert(kept.push(last)[kept.len() as int] == t);
                    }
                }
            }
            if dedup(texts).contains(t) {
                let j = choose|j: int| 0 <= j < dedup(texts).len() && dedup(texts)[j] == t;
                if j < kept.len() {
                    assert(kept[j] == t);
                    assert(front.contains(t));
                    let i = choose|i: int| 0 <= i < front.len() && front[i] == t;
                    assert(texts[i] == t);
                } else {
                    assert(texts[texts.len() - 1] == t);
                }
            }
        }
    }
}

/// A list without repetition is its own [`dedup`].
pub proof fn lemma_dedup_of_unique(texts: Seq<Seq<char>>)
    requires
        texts.no_duplicates(),
    ensures
        dedup(texts) == texts,
    decreases texts.len(),
{
    if texts.len() > 0 {
        let front = texts.drop_last();
        lemma_dedup_of_unique(front);
        if front.contains(texts.last()) {
            let i = choose|i: int| 0 <= i < front.len() && front[i] == texts.last();
            assert(texts[i] == texts[texts.len() - 1]);
        }
        assert(front.push(texts.last()) =~= texts);
    } else {
        assert(dedup(texts) =~= texts);
    }
}

/// Removing repetitions leaves no repetition and loses no text, and doing
/// it again changes nothing.
pub proof fn law_dedup_is_idempotent(texts: Seq<Seq<char>>)
    ensures
        dedup(texts).no_duplicates(),
        forall|t: Seq<char>| dedup(texts).contains(t) <==> texts.contains(t),
        dedup(dedup(texts)) == dedup(texts),
{
    lemma_dedup_keeps_each_once(texts);
    lemma_dedup_of_unique(dedup(texts));
}

} // verus!
