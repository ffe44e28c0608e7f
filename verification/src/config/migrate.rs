//! Upgrading a configuration that an older build wrote.
//!
//! The file is the user's, so a migration edits their document rather than writing a new one: their
//! keys keep their values, their order, their spacing and their comments, and only what the schema
//! requires moves. Two questions drive it, "is this key still part of the schema?" and "what version
//! does this file say it is?", and both are answered from the document, because it is the document
//! that is being upgraded.

use vstd::prelude::*;

use crate::config::{
    api_of, config_of, count_field, editor_of, field, hollow, is_section, level_of, logger_of,
    theme_of, Config, ConfigView, CONFIG_VERSION,
};
use crate::text::{copy, count_of, decimal, decimal_of};
use crate::toml::{
    bare_in, copy_path, document_marks, document_text, document_tree, find_key, leads_to, lemma_find_key,
    lemma_stepped, lemma_with_entry, lemma_without, lemma_without_gone, line_marks, parsed_marks,
    reads_back, single, step_views, text_says, tidy, toml_parse, unwritten, Document, Mark, Step,
    StepView, Toml, TomlView,
};

verus! {

// ---------------------------------------------------------------------------------------------
// Asking about a key

/// The shapes a key is asked about, in the order they are tried: a number, a string, an array and a
/// table.
pub open spec fn shapes() -> Seq<TomlView> {
    seq![
        TomlView::Int(0),
        TomlView::Text(Seq::empty()),
        TomlView::List(Seq::empty()),
        TomlView::Table(Seq::empty()),
    ]
}

/// Whether the schema takes a document with another value under a key it has.
pub open spec fn takes(tree: TomlView, path: Seq<StepView>, shape: TomlView) -> bool {
    tree.at(path) is Some && config_of(tree.replaced(path, shape)) is Some
}

/// Whether the schema does not have the key at a path.
///
/// A key the schema does not know is ignored, whatever its value, and so all four shapes are taken.
/// A key it still has rejects at least one of them.
pub open spec fn ignored(tree: TomlView, path: Seq<StepView>) -> bool {
    forall|i: int| 0 <= i < shapes().len() ==> takes(tree, path, #[trigger] shapes()[i])
}

fn schema_takes(tree: &Toml, path: &Vec<Step>, shape: &Toml) -> (out: bool)
    ensures
        out == takes(tree@, step_views(path@), shape@),
{
    assert(step_views(path@).skip(0) =~= step_views(path@));
    if !tree.has_at(path, 0) {
        return false;
    }
    let probe = tree.replaced(path, 0, shape);
    Config::from_toml(&probe).is_some()
}

fn schema_ignores(tree: &Toml, path: &Vec<Step>) -> (out: bool)
    ensures
        out == ignored(tree@, step_views(path@)),
{
    let number = Toml::Int(0);
    let text = Toml::Text(String::new());
    let array = Toml::List(Vec::new());
    let table = Toml::Table(Vec::new());
    assert(shapes()[0] == number@);
    assert(shapes()[1] == text@) by {
        assert(text@->Text_0 =~= Seq::<char>::empty());
    }
    assert(shapes()[2] == array@) by {
        assert(array@->List_0 =~= Seq::<TomlView>::empty());
    }
    assert(shapes()[3] == table@) by {
        assert(table@->Table_0 =~= Seq::<(Seq<char>, TomlView)>::empty());
    }
    schema_takes(tree, path, &number) && schema_takes(tree, path, &text) && schema_takes(
        tree,
        path,
        &array,
    ) && schema_takes(tree, path, &table)
}

// ---------------------------------------------------------------------------------------------
// The sweep

/// The keys below `node`, which stands at `path`, that the schema does not have. A key that is gone
/// is not looked into: dropping it takes the subtree with it.
pub open spec fn stale_under(tree: TomlView, node: TomlView, path: Seq<StepView>) -> Seq<
    Seq<StepView>,
>
    decreases node, 1nat, 0nat,
{
    match node {
        TomlView::Table(entries) => stale_entries(tree, node, path, entries.len()),
        TomlView::List(items) => stale_elements(tree, node, path, items.len()),
        _ => Seq::empty(),
    }
}

/// Of the first `n` entries of a table.
pub open spec fn stale_entries(tree: TomlView, node: TomlView, path: Seq<StepView>, n: nat) -> Seq<
    Seq<StepView>,
>
    decreases node, 0nat, n,
{
    if n == 0 || !(node is Table) || n > node->Table_0.len() {
        Seq::empty()
    } else {
        let entry = node->Table_0[n - 1];
        let below = path.push(StepView::Key(entry.0));
        stale_entries(tree, node, path, (n - 1) as nat) + if ignored(tree, below) {
            seq![below]
        } else {
            stale_under(tree, entry.1, below)
        }
    }
}

/// Of the first `n` elements of an array.
pub open spec fn stale_elements(
    tree: TomlView,
    node: TomlView,
    path: Seq<StepView>,
    n: nat,
) -> Seq<Seq<StepView>>
    decreases node, 0nat, n,
{
    if n == 0 || !(node is List) || n > node->List_0.len() {
        Seq::empty()
    } else {
        stale_elements(tree, node, path, (n - 1) as nat) + stale_under(
            tree,
            node->List_0[n - 1],
            path.push(StepView::Element(n - 1)),
        )
    }
}

/// Every key of a document that the schema does not have, at every level of it.
pub open spec fn stale(tree: TomlView) -> Seq<Seq<StepView>> {
    stale_under(tree, tree, Seq::empty())
}

pub open spec fn path_views(paths: Seq<Vec<Step>>) -> Seq<Seq<StepView>> {
    Seq::new(paths.len(), |i: int| step_views(paths[i]@))
}

proof fn lemma_pop(path: Seq<Step>, step: Step)
    ensures
        step_views(path.push(step)) == step_views(path).push(step@),
        path.push(step).drop_last() == path,
{
    assert(step_views(path.push(step)) =~= step_views(path).push(step@));
    assert(path.push(step).drop_last() =~= path);
}

fn visit(tree: &Toml, at: &Toml, path: &mut Vec<Step>, found: &mut Vec<Vec<Step>>)
    ensures
        step_views(final(path)@) == step_views(old(path)@),
        path_views(final(found)@) == path_views(old(found)@) + stale_under(
            tree@,
            at@,
            step_views(old(path)@),
        ),
    decreases at,
{
    let ghost here = step_views(path@);
    let ghost before = path_views(found@);
    match at {
        Toml::Table(entries) => {
            let mut i: usize = 0;
            assert(stale_entries(tree@, at@, here, 0) =~= Seq::<Seq<StepView>>::empty());
            assert(before + stale_entries(tree@, at@, here, 0) =~= before);
            while i < entries.len()
                invariant
                    *at == Toml::Table(*entries),
                    at@ is Table,
                    at@->Table_0.len() == entries@.len(),
                    i <= entries@.len(),
                    step_views(path@) == here,
                    path_views(found@) == before + stale_entries(tree@, at@, here, i as nat),
                decreases entries@.len() - i,
            {
                assert(at@->Table_0[i as int] == (entries@[i as int].0@, entries@[i as int].1@));
                let step = Step::Key(copy(&entries[i].0));
                let ghost so_far = path_views(found@);
                let ghost rows = path@;
                let ghost below = here.push(step@);
                proof {
                    lemma_pop(path@, step);
                    assert(stale_entries(tree@, at@, here, (i + 1) as nat) == stale_entries(
                        tree@,
                        at@,
                        here,
                        i as nat,
                    ) + if ignored(tree@, below) {
                        seq![below]
                    } else {
                        stale_under(tree@, entries@[i as int].1@, below)
                    });
                }
                path.push(step);
                if schema_ignores(tree, path) {
                    let kept = copy_path(path);
                    found.push(kept);
                    assert(path_views(found@) =~= so_far + seq![below]);
                } else {
                    assert(decreases_to!(*at => at->Table_0@[i as int].1));
                    visit(tree, &entries[i].1, path, found);
                }
                proof {
                    assert(path@.len() == rows.len() + 1) by {
                        assert(step_views(path@).len() == below.len());
                    }
                    assert(step_views(path@.drop_last()) =~= here) by {
                        assert(step_views(path@) == below);
                        assert forall|k: int| 0 <= k < here.len() implies step_views(
                            path@.drop_last(),
                        )[k] == here[k] by {
                            assert(step_views(path@)[k] == below[k]);
                        }
                    }
                    assert(before + stale_entries(tree@, at@, here, (i + 1) as nat) =~= (before
                        + stale_entries(tree@, at@, here, i as nat)) + if ignored(tree@, below) {
                        seq![below]
                    } else {
                        stale_under(tree@, entries@[i as int].1@, below)
                    });
                }
                path.pop();
                i += 1;
            }
        },
        Toml::List(items) => {
            let mut i: usize = 0;
            assert(stale_elements(tree@, at@, here, 0) =~= Seq::<Seq<StepView>>::empty());
            assert(before + stale_elements(tree@, at@, here, 0) =~= before);
            while i < items.len()
                invariant
                    *at == Toml::List(*items),
                    at@ is List,
                    at@->List_0.len() == items@.len(),
                    i <= items@.len(),
                    step_views(path@) == here,
                    path_views(found@) == before + stale_elements(tree@, at@, here, i as nat),
                decreases items@.len() - i,
            {
                assert(at@->List_0[i as int] == items@[i as int]@);
                let step = Step::Element(i);
                let ghost rows = path@;
                let ghost below = here.push(step@);
                proof {
                    lemma_pop(path@, step);
                    assert(stale_elements(tree@, at@, here, (i + 1) as nat) == stale_elements(
                        tree@,
                        at@,
                        here,
                        i as nat,
                    ) + stale_under(tree@, items@[i as int]@, below));
                }
                path.push(step);
                assert(decreases_to!(*at => at->List_0@[i as int]));
                visit(tree, &items[i], path, found);
                proof {
                    assert(path@.len() == rows.len() + 1) by {
                        assert(step_views(path@).len() == below.len());
                    }
                    assert(step_views(path@.drop_last()) =~= here) by {
                        assert forall|k: int| 0 <= k < here.len() implies step_views(
                            path@.drop_last(),
                        )[k] == here[k] by {
                            assert(step_views(path@)[k] == below[k]);
                        }
                    }
                    assert(before + stale_elements(tree@, at@, here, (i + 1) as nat) =~= (before
                        + stale_elements(tree@, at@, here, i as nat)) + stale_under(
                        tree@,
                        items@[i as int]@,
                        below,
                    ));
                }
                path.pop();
                i += 1;
            }
        },
        _ => {
            assert(before + Seq::<Seq<StepView>>::empty() =~= before);
        },
    }
}

/// Every key of a document that the schema no longer has, at every level of it.
pub fn stale_keys(tree: &Toml) -> (out: Vec<Vec<Step>>)
    ensures
        path_views(out@) == stale(tree@),
{
    let mut out: Vec<Vec<Step>> = Vec::new();
    let mut path: Vec<Step> = Vec::new();
    assert(step_views(path@) =~= Seq::<StepView>::empty());
    assert(path_views(out@) =~= Seq::<Seq<StepView>>::empty());
    visit(tree, tree, &mut path, &mut out);
    assert(path_views(out@) =~= stale(tree@));
    out
}

/// The key a path names, the way the user reads it in their file: `api.model`, `panes[0].kind`.
pub open spec fn path_text(path: Seq<StepView>) -> Seq<char>
    decreases path.len(),
{
    if path.len() == 0 {
        Seq::empty()
    } else {
        let front = path_text(path.drop_last());
        match path.last() {
            StepView::Key(name) => if front.len() == 0 {
                name
            } else {
                front + seq!['.'] + name
            },
            StepView::Element(index) => front + seq!['['] + decimal(index as nat) + seq![']'],
        }
    }
}

pub fn path_name(path: &Vec<Step>) -> (out: String)
    ensures
        out@ == path_text(step_views(path@)),
{
    let ghost all = step_views(path@);
    let mut out = String::new();
    let mut i: usize = 0;
    assert(out@ =~= path_text(all.take(0)));
    while i < path.len()
        invariant
            all == step_views(path@),
            i <= path@.len(),
            out@ == path_text(all.take(i as int)),
        decreases path@.len() - i,
    {
        assert(all.take(i + 1).drop_last() =~= all.take(i as int));
        assert(all.take(i + 1).last() == path@[i as int]@);
        match &path[i] {
            Step::Key(name) => {
                let ghost front = out@;
                if !out.as_str().is_empty() {
                    out.push('.');
                }
                out.append(name);
                assert(out@ =~= path_text(all.take(i + 1)));
            },
            Step::Element(index) => {
                out.push('[');
                out.append(&count_of(*index));
                out.push(']');
                assert(out@ =~= path_text(all.take(i + 1)));
            },
        }
        i += 1;
    }
    assert(all.take(all.len() as int) =~= all);
    out
}

// ---------------------------------------------------------------------------------------------
// The migration

/// The schema version a document declares. One that says nothing, or says something that is not a
/// version, is older than anything this build knows.
pub open spec fn version_of(tree: TomlView) -> u32 {
    match tree.get("config_version"@) {
        Some(TomlView::Int(n)) => if 0 <= n <= u32::MAX {
            n as u32
        } else {
            0
        },
        _ => 0,
    }
}

pub fn document_version(tree: &Toml) -> (out: u32)
    ensures
        out == version_of(tree@),
{
    match tree.get("config_version") {
        Some(Toml::Int(n)) => if 0 <= *n && *n <= 0xffff_ffff {
            *n as u32
        } else {
            0
        },
        _ => 0,
    }
}

/// A document without the keys at some paths, taken out one after the other.
pub open spec fn removed_all(tree: TomlView, paths: Seq<Seq<StepView>>) -> TomlView
    decreases paths.len(),
{
    if paths.len() == 0 {
        tree
    } else {
        removed_all(tree, paths.drop_last()).removed(paths.last())
    }
}

/// A document of this schema: without the keys the schema does not have, and with its version.
pub open spec fn migrated(tree: TomlView) -> TomlView {
    removed_all(tree, stale(tree)).with_entry(
        "config_version"@,
        TomlView::Int(CONFIG_VERSION as int),
    )
}

/// What was done to a document.
#[derive(Debug, Clone, PartialEq)]
pub struct Migration {
    /// The version the document had.
    pub from: u32,
    /// The keys that were dropped, as the user reads them.
    pub dropped: Vec<String>,
    /// The document's text now.
    pub text: String,
}

/// Whether none of some paths leads to a place.
pub open spec fn spared(paths: Seq<Seq<StepView>>, path: Seq<StepView>) -> bool {
    forall|i: int| 0 <= i < paths.len() ==> !leads_to(#[trigger] paths[i], path)
}

/// Where the version stands.
pub open spec fn version_path() -> Seq<StepView> {
    seq![StepView::Key("config_version"@)]
}

/// Whether a document still is as the user wrote it: around everything that stays, the version's own
/// line included, the spacing and the comments are those of the text.
pub open spec fn as_written(document: Document, text: Seq<char>, tree: TomlView) -> bool {
    &&& forall|mark: Mark|
        spared(stale(tree), mark.path()) && !mark.within(version_path()) ==> #[trigger]
            document_marks(document, mark) == parsed_marks(text, mark)
    &&& (tree.get("config_version"@) matches Some(value) && single(value) && value !is Nothing)
        ==> line_marks(document, "config_version"@) == (
        parsed_marks(text, Mark::Key(version_path())),
        parsed_marks(text, Mark::Item(version_path())),
    )
}

/// Whether a tree is how a document can be spelled: its root is a table, and a table with nothing in
/// it has a header or braces of its own in the text.
pub open spec fn is_spelled(text: Seq<char>, tree: TomlView) -> bool {
    &&& tree is Table
    &&& forall|path: Seq<StepView>|
        path.len() > 0 && tree.at(path) == Some(TomlView::Table(Seq::empty())) ==> (
        #[trigger] parsed_marks(text, Mark::Item(path))).len() > 0
}

/// Whether this is the migration of a text that says `tree`: the text of the user's document, with
/// what the schema requires done to it and everything else as it was. What was written is read as
/// that document.
pub open spec fn migration_of(migration: Migration, text: Seq<char>, tree: TomlView) -> bool {
    &&& is_spelled(text, tree)
    &&& migration.from == version_of(tree)
    &&& migration.dropped@.len() == stale(tree).len()
    &&& forall|i: int|
        0 <= i < migration.dropped@.len() ==> (#[trigger] migration.dropped@[i])@ == path_text(
            stale(tree)[i],
        )
    &&& exists|document: Document|
        {
            &&& #[trigger] document_tree(document) == migrated(tree)
            &&& document_text(document) == migration.text@
            &&& text_says(migration.text@, document)
            &&& as_written(document, text, tree)
        }
}

/// Upgrades the user's own document to [`CONFIG_VERSION`] by editing it instead of writing a new
/// one. There is nothing to do for a text that is not TOML, for a document that is already at this
/// schema, and for one from a newer build, which is left as it is rather than downgraded.
pub fn migrate_document(text: &str) -> (out: Option<Migration>)
    ensures
        match out {
            Some(migration) => toml_parse(text@) is Some && version_of(toml_parse(text@)->0)
                < CONFIG_VERSION && migration_of(migration, text@, toml_parse(text@)->0),
            None => toml_parse(text@) is None || version_of(toml_parse(text@)->0)
                >= CONFIG_VERSION,
        },
{
    let mut document = match Document::parse(text) {
        Some(document) => document,
        None => {
            return None;
        },
    };
    let tree = document.tree();
    let from: u32 = document_version(&tree);
    if from >= CONFIG_VERSION {
        return None;
    }
    assert(is_spelled(text@, tree@)) by {
        assert forall|path: Seq<StepView>|
            path.len() > 0 && tree@.at(path) == Some(TomlView::Table(Seq::empty())) implies (
        #[trigger] parsed_marks(text@, Mark::Item(path))).len() > 0 by {
            assert(document_marks(document, Mark::Item(path)).len() > 0);
        }
    }
    let gone = stale_keys(&tree);
    let ghost paths = stale(tree@);
    let mut dropped: Vec<String> = Vec::new();
    let mut i: usize = 0;
    assert(paths.take(0) =~= Seq::<Seq<StepView>>::empty());
    while i < gone.len()
        invariant
            tree@ is Table,
            paths == stale(tree@),
            paths == path_views(gone@),
            i <= gone@.len(),
            document_tree(document) == removed_all(tree@, paths.take(i as int)),
            document_tree(document) is Table,
            forall|mark: Mark|
                spared(paths.take(i as int), mark.path()) ==> #[trigger] document_marks(
                    document,
                    mark,
                ) == parsed_marks(text@, mark),
            dropped@.len() == i,
            forall|k: int| 0 <= k < i ==> (#[trigger] dropped@[k])@ == path_text(paths[k]),
        decreases gone@.len() - i,
    {
        assert(paths.take(i + 1).drop_last() =~= paths.take(i as int));
        assert(paths.take(i + 1).last() == step_views(gone@[i as int]@));
        proof {
            lemma_stale_under(tree@, tree@, Seq::empty());
            assert(paths[i as int].len() > 0);
            assert forall|mark: Mark| #[trigger] spared(paths.take(i + 1), mark.path()) implies spared(
                paths.take(i as int),
                mark.path(),
            ) && !mark.within(paths[i as int]) by {
                assert(paths.take(i + 1)[i as int] == paths[i as int]);
                assert forall|k: int| 0 <= k < i implies !leads_to(
                    #[trigger] paths.take(i as int)[k],
                    mark.path(),
                ) by {
                    assert(paths.take(i + 1)[k] == paths.take(i as int)[k]);
                }
            }
        }
        document.remove(&gone[i]);
        dropped.push(path_name(&gone[i]));
        i += 1;
    }
    assert(paths.take(paths.len() as int) =~= paths);
    let ghost swept = document;
    document.set_integer("config_version", CONFIG_VERSION as i64);
    proof {
        lemma_with_entry(
            document_tree(swept),
            "config_version"@,
            TomlView::Int(CONFIG_VERSION as int),
            "config_version"@,
        );
        lemma_version_is_spared(tree@);
        reveal_with_fuel(TomlView::at, 2);
        if let Some(value) = tree@.get("config_version"@) {
            if single(value) && value !is Nothing {
                assert(tree@.step(StepView::Key("config_version"@)) == Some(value));
                assert(version_path().drop_first() =~= Seq::<StepView>::empty());
                assert(tree@.at(version_path()) == Some(value));
                lemma_all_removed_elsewhere(tree@, paths, version_path());
                let left = document_tree(swept);
                assert(left.at(version_path()) == Some(value));
                assert(left.step(StepView::Key("config_version"@)) == left.get("config_version"@));
                assert(spared(paths, Mark::Key(version_path()).path()));
                assert(spared(paths, Mark::Item(version_path()).path()));
            }
        }
    }
    let written = document.text();
    let out = Migration { from, dropped, text: written };
    assert(document_tree(document) == migrated(tree@));
    Some(out)
}

/// The version's own key is never dropped, and so nothing above it is.
proof fn lemma_version_is_spared(tree: TomlView)
    ensures
        spared(stale(tree), version_path()),
        forall|i: int|
            0 <= i < stale(tree).len() ==> (#[trigger] stale(tree)[i]).len() > version_path().len()
                || version_path().take(stale(tree)[i].len() as int) != stale(tree)[i],
{
    lemma_stale_under(tree, tree, Seq::empty());
    let paths = stale(tree);
    assert forall|i: int| 0 <= i < paths.len() implies !leads_to(
        #[trigger] paths[i],
        version_path(),
    ) by {
        if leads_to(paths[i], version_path()) {
            assert(paths[i] =~= version_path());
            let path = version_path();
            reveal_with_fuel(TomlView::at, 2);
            reveal_with_fuel(TomlView::replaced, 2);
            assert(takes(tree, path, shapes()[1]));
            let after = tree.replaced(path, shapes()[1]);
            let key = StepView::Key("config_version"@);
            assert(path.drop_first() =~= Seq::<StepView>::empty());
            match tree.step(key) {
                Some(inner) => {
                    lemma_stepped(tree, key, shapes()[1], key);
                    assert(after.step(key) == after.get("config_version"@));
                },
                None => {},
            }
        }
    }
}

/// What a copy of the file before a migration is called: its extension.
pub open spec fn backup_extension_text(from: u32) -> Seq<char> {
    "toml.bak-v"@ + decimal(from as nat)
}

pub fn backup_extension(from: u32) -> (out: String)
    ensures
        out@ == backup_extension_text(from),
{
    let mut out = copy("toml.bak-v");
    out.append(&decimal_of(from as u64));
    out
}

// ---------------------------------------------------------------------------------------------
// Laws

/// The fields of a section, in their order.
pub open spec fn fields(section: Seq<char>) -> Seq<Seq<char>> {
    if section == "logger"@ {
        seq!["log_level"@]
    } else if section == "api"@ {
        seq!["base_url"@, "model"@, "show_thinking"@, "api_key_env"@]
    } else if section == "editor"@ {
        seq!["tab_width"@]
    } else {
        seq!["name"@, "glyphs"@, "color_mode"@]
    }
}

pub open spec fn is_section_name(name: Seq<char>) -> bool {
    name == "logger"@ || name == "api"@ || name == "editor"@ || name == "theme"@
}

/// Whether a path leads into something the schema does not have: a key of the root it does not know,
/// or a key of a section, or an element behind its fields, that it does not know.
pub open spec fn foreign(path: Seq<StepView>) -> bool {
    &&& path.len() > 0
    &&& match path[0] {
        StepView::Element(_) => false,
        StepView::Key(name) => if name == "config_version"@ {
            false
        } else if is_section_name(name) {
            &&& path.len() > 1
            &&& match path[1] {
                StepView::Key(own) => !fields(name).contains(own),
                StepView::Element(index) => index >= fields(name).len(),
            }
        } else {
            true
        },
    }
}

/// No two entries of the root have the same name.
pub proof fn lemma_names()
    ensures
        "config_version"@ != "logger"@,
        "config_version"@ != "api"@,
        "config_version"@ != "editor"@,
        "config_version"@ != "theme"@,
        "logger"@ != "api"@,
        "logger"@ != "editor"@,
        "logger"@ != "theme"@,
        "api"@ != "editor"@,
        "api"@ != "theme"@,
        "editor"@ != "theme"@,
{
    reveal_strlit("config_version");
    reveal_strlit("logger");
    reveal_strlit("api");
    reveal_strlit("editor");
    reveal_strlit("theme");
    assert("config_version"@.len() == 14 && "logger"@.len() == 6 && "api"@.len() == 3
        && "editor"@.len() == 6 && "theme"@.len() == 5);
    assert("logger"@[0] == 'l' && "editor"@[0] == 'e');
}

/// Whether a field takes a value.
spec fn accepts(section: Seq<char>, index: int, value: TomlView) -> bool {
    if section == "logger"@ {
        level_of(value) is Some
    } else if section == "api"@ && index == 2 {
        value is Bool
    } else if section == "editor"@ {
        value matches TomlView::Int(n) && 0 <= n <= u8::MAX
    } else {
        value is Text
    }
}

/// Whether a section takes what stands under its name.
spec fn section_reads(section: Seq<char>, value: Option<TomlView>) -> bool {
    match value {
        None => true,
        Some(inner) => {
            &&& is_section(inner)
            &&& forall|i: int|
                0 <= i < fields(section).len() ==> (match field(
                    inner,
                    i,
                    #[trigger] fields(section)[i],
                ) {
                    Some(own) => accepts(section, i, own),
                    None => section != "logger"@,
                })
        },
    }
}

proof fn lemma_reads(tree: TomlView)
    ensures
        (config_of(tree) is Some) == ({
            &&& count_field(
                tree.get("config_version"@),
                CONFIG_VERSION as int,
                u32::MAX as int,
            ) is Some
            &&& section_reads("logger"@, tree.get("logger"@))
            &&& section_reads("api"@, tree.get("api"@))
            &&& section_reads("editor"@, tree.get("editor"@))
            &&& section_reads("theme"@, tree.get("theme"@))
        }),
{
    lemma_names();
    let logger = fields("logger"@);
    let api = fields("api"@);
    let editor = fields("editor"@);
    let theme = fields("theme"@);
    assert(logger[0] == "log_level"@);
    assert(api[0] == "base_url"@ && api[1] == "model"@ && api[2] == "show_thinking"@ && api[3]
        == "api_key_env"@);
    assert(editor[0] == "tab_width"@);
    assert(theme[0] == "name"@ && theme[1] == "glyphs"@ && theme[2] == "color_mode"@);
    assert((logger_of(tree.get("logger"@)) is Some) == section_reads(
        "logger"@,
        tree.get("logger"@),
    ));
    assert((api_of(tree.get("api"@)) is Some) == section_reads("api"@, tree.get("api"@)));
    assert((editor_of(tree.get("editor"@)) is Some) == section_reads(
        "editor"@,
        tree.get("editor"@),
    ));
    assert((theme_of(tree.get("theme"@)) is Some) == section_reads("theme"@, tree.get("theme"@)));
}

/// Two values of a section that agree on its fields.
spec fn agree(section: Seq<char>, a: TomlView, b: TomlView) -> bool {
    &&& is_section(a) == is_section(b)
    &&& (a is Table) == (b is Table)
    &&& (a is List) == (b is List)
    &&& forall|i: int|
        0 <= i < fields(section).len() ==> field(a, i, #[trigger] fields(section)[i]) == field(
            b,
            i,
            fields(section)[i],
        )
}

/// Two documents that agree on everything the schema reads.
spec fn kin(a: TomlView, b: TomlView) -> bool {
    &&& a.get("config_version"@) == b.get("config_version"@)
    &&& forall|name: Seq<char>|
        #![trigger a.get(name)]
        is_section_name(name) ==> a.get(name) == b.get(name) || (a.get(name) is Some && b.get(
            name,
        ) is Some && agree(name, a.get(name)->0, b.get(name)->0))
}

/// Documents that agree on everything the schema reads are the same configuration.
proof fn lemma_agree(a: TomlView, b: TomlView)
    requires
        kin(a, b),
    ensures
        config_of(a) == config_of(b),
{
    lemma_names();
    let logger = fields("logger"@);
    let api = fields("api"@);
    let editor = fields("editor"@);
    let theme = fields("theme"@);
    assert(logger[0] == "log_level"@);
    assert(api[0] == "base_url"@ && api[1] == "model"@ && api[2] == "show_thinking"@ && api[3]
        == "api_key_env"@);
    assert(editor[0] == "tab_width"@);
    assert(theme[0] == "name"@ && theme[1] == "glyphs"@ && theme[2] == "color_mode"@);
    assert(logger_of(a.get("logger"@)) == logger_of(b.get("logger"@)));
    assert(api_of(a.get("api"@)) == api_of(b.get("api"@)));
    assert(editor_of(a.get("editor"@)) == editor_of(b.get("editor"@)));
    assert(theme_of(a.get("theme"@)) == theme_of(b.get("theme"@)));
}

/// A section in which something it does not know was changed behind one step.
proof fn lemma_section_stepped(section: Seq<char>, value: TomlView, step: StepView, inner: TomlView)
    requires
        is_section_name(section),
        match step {
            StepView::Key(own) => !fields(section).contains(own),
            StepView::Element(index) => index >= fields(section).len(),
        },
    ensures
        agree(section, value, value.stepped(step, inner)),
{
    let after = value.stepped(step, inner);
    lemma_stepped(value, step, inner, step);
    assert forall|i: int| 0 <= i < fields(section).len() implies field(
        value,
        i,
        #[trigger] fields(section)[i],
    ) == field(after, i, fields(section)[i]) by {
        let name = fields(section)[i];
        assert(fields(section).contains(name));
        match value {
            TomlView::Table(_) => {
                lemma_stepped(value, step, inner, StepView::Key(name));
                assert(field(value, i, name) == value.step(StepView::Key(name)));
            },
            TomlView::List(_) => {
                lemma_stepped(value, step, inner, StepView::Element(i));
                assert(field(value, i, name) == value.step(StepView::Element(i)));
                assert(field(after, i, name) == after.step(StepView::Element(i)));
            },
            _ => {},
        }
    }
}

/// Changing what the schema does not have does not change the configuration.
proof fn lemma_foreign_change(tree: TomlView, path: Seq<StepView>, after: TomlView)
    requires
        tree is Table,
        foreign(path),
        ({
            ||| after == tree.removed(path)
            ||| exists|value: TomlView| after == #[trigger] tree.replaced(path, value)
        }),
    ensures
        config_of(after) == config_of(tree),
        after is Table,
        kin(after, tree),
{
    let name = path[0]->Key_0;
    let rest = path.drop_first();
    lemma_names();
    // Only the entry of the first key changes.
    assert(after is Table && forall|other: Seq<char>|
        #![trigger after.get(other)]
        other != name ==> after.get(other) == tree.get(other)) by {
        assert forall|other: Seq<char>| #![trigger after.get(other)] other != name implies after.get(
            other,
        ) == tree.get(other) by {
            lemma_first_key(tree, path, after, other);
        }
        lemma_first_key(tree, path, after, "config_version"@);
    }
    if is_section_name(name) {
        let own = path[1];
        assert(rest[0] == own);
        match tree.get(name) {
            None => {
                assert(after == tree);
            },
            Some(value) => {
                assert(tree.step(path[0]) == Some(value));
                let inside = if after == tree.removed(path) {
                    value.removed(rest)
                } else {
                    let v = choose|v: TomlView| after == #[trigger] tree.replaced(path, v);
                    value.replaced(rest, v)
                };
                assert(after == tree.stepped(path[0], inside));
                lemma_stepped(tree, path[0], inside, path[0]);
                assert(after.get(name) == Some(inside)) by {
                    assert(after.step(path[0]) == after.get(name));
                }
                lemma_foreign_inside(name, value, rest, inside);
            },
        }
    }
    assert forall|section: Seq<char>|
        #![trigger after.get(section)]
        is_section_name(section) implies after.get(section) == tree.get(section) || (after.get(
        section,
    ) is Some && tree.get(section) is Some && agree(
        section,
        after.get(section)->0,
        tree.get(section)->0,
    )) by {
        if section == name && after.get(name) != tree.get(name) {
            assert(agree(name, after.get(name)->0, tree.get(name)->0));
        }
    }
    lemma_agree(after, tree);
}

proof fn lemma_first_key(tree: TomlView, path: Seq<StepView>, after: TomlView, other: Seq<char>)
    requires
        tree is Table,
        foreign(path),
        other != path[0]->Key_0,
        ({
            ||| after == tree.removed(path)
            ||| exists|value: TomlView| after == #[trigger] tree.replaced(path, value)
        }),
    ensures
        after is Table,
        after.get(other) == tree.get(other),
{
    let name = path[0]->Key_0;
    let rest = path.drop_first();
    match tree.get(name) {
        None => {
            assert(tree.step(path[0]) is None);
            lemma_without(tree, name, other);
            assert(after == tree || after == tree.without(name));
        },
        Some(value) => {
            assert(tree.step(path[0]) == Some(value));
            lemma_without(tree, name, other);
            if after == tree.removed(path) {
                if path.len() > 1 {
                    lemma_stepped(tree, path[0], value.removed(rest), StepView::Key(other));
                    assert(after.step(StepView::Key(other)) == after.get(other));
                }
            } else {
                let v = choose|v: TomlView| after == #[trigger] tree.replaced(path, v);
                lemma_stepped(tree, path[0], value.replaced(rest, v), StepView::Key(other));
                assert(after.step(StepView::Key(other)) == after.get(other));
            }
        },
    }
}

proof fn lemma_foreign_inside(
    section: Seq<char>,
    value: TomlView,
    path: Seq<StepView>,
    after: TomlView,
)
    requires
        is_section_name(section),
        path.len() > 0,
        match path[0] {
            StepView::Key(own) => !fields(section).contains(own),
            StepView::Element(index) => index >= fields(section).len(),
        },
        ({
            ||| after == value.removed(path)
            ||| exists|v: TomlView| after == #[trigger] value.replaced(path, v)
        }),
    ensures
        agree(section, after, value),
{
    let rest = path.drop_first();
    if after == value.removed(path) {
        if path.len() == 1 {
            match path[0] {
                StepView::Key(own) => {
                    assert(is_section(after) == is_section(value));
                    assert forall|i: int| 0 <= i < fields(section).len() implies field(
                        after,
                        i,
                        #[trigger] fields(section)[i],
                    ) == field(value, i, fields(section)[i]) by {
                        assert(fields(section).contains(fields(section)[i]));
                        lemma_without(value, own, fields(section)[i]);
                    }
                },
                _ => {},
            }
        } else {
            match value.step(path[0]) {
                Some(inner) => {
                    lemma_section_stepped(section, value, path[0], inner.removed(rest));
                },
                None => {},
            }
        }
    } else {
        let v = choose|v: TomlView| after == #[trigger] value.replaced(path, v);
        match value.step(path[0]) {
            Some(inner) => {
                lemma_section_stepped(section, value, path[0], inner.replaced(rest, v));
            },
            None => {},
        }
    }
}

/// The sweep finds every key the schema does not have: in a document that is a configuration, a key
/// the schema does not know is ignored whatever its value.
pub proof fn law_an_unknown_key_is_stale(tree: TomlView, path: Seq<StepView>)
    requires
        tree is Table,
        config_of(tree) is Some,
        tree.at(path) is Some,
        foreign(path),
    ensures
        ignored(tree, path),
{
    assert forall|i: int| 0 <= i < shapes().len() implies takes(
        tree,
        path,
        #[trigger] shapes()[i],
    ) by {
        lemma_foreign_change(tree, path, tree.replaced(path, shapes()[i]));
    }
}

/// What a field of the schema takes has nothing under it, but for a level that is written as a table
/// with one hollow entry.
proof fn lemma_accepted_leaf(
    section: Seq<char>,
    index: int,
    value: TomlView,
    path: Seq<StepView>,
)
    requires
        is_section_name(section),
        accepts(section, index, value),
        path.len() > 0,
        path.last() is Key,
        value.at(path) is Some,
    ensures
        !accepts(section, index, value.replaced(path, TomlView::Int(0))),
{
    lemma_names();
    assert(value.step(path[0]) is Some);
    assert(value is Table || value is List);
    assert(section == "logger"@);
    let entries = value->Table_0;
    let name = path[0]->Key_0;
    lemma_find_key(entries, name, 0);
    assert(find_key(entries, name, 0) == Some(0int));
    let inner = entries[0].1;
    let rest = path.drop_first();
    assert(hollow(inner));
    assert(inner.at(rest) is Some);
    if rest.len() > 0 {
        match (inner, rest[0]) {
            (TomlView::Table(own), StepView::Key(key)) => {
                lemma_find_key(own, key, 0);
            },
            _ => {},
        }
        assert(inner.step(rest[0]) is None);
    } else {
        let after = value.replaced(path, TomlView::Int(0));
        assert(inner.replaced(rest, TomlView::Int(0)) == TomlView::Int(0));
        assert(after == value.stepped(path[0], TomlView::Int(0)));
        assert(after->Table_0[0].1 == TomlView::Int(0));
    }
}

/// The sweep keeps every key the schema has: a key it knows rejects at least one of the shapes, so
/// it is never called stale.
pub proof fn law_a_known_key_is_not_stale(tree: TomlView, path: Seq<StepView>)
    requires
        tree is Table,
        config_of(tree) is Some,
        path.len() > 0,
        path.last() is Key,
        tree.at(path) is Some,
        !foreign(path),
    ensures
        !ignored(tree, path),
{
    lemma_names();
    lemma_reads(tree);
    let number = shapes()[0];
    let word = shapes()[1];
    let with_number = tree.replaced(path, number);
    let with_word = tree.replaced(path, word);
    lemma_reads(with_number);
    lemma_reads(with_word);
    assert(tree.step(path[0]) is Some);
    let name = path[0]->Key_0;
    let value = tree.get(name)->0;
    assert(tree.step(path[0]) == Some(value));
    let rest = path.drop_first();
    let in_number = value.replaced(rest, number);
    let in_word = value.replaced(rest, word);
    lemma_stepped(tree, path[0], in_number, path[0]);
    lemma_stepped(tree, path[0], in_word, path[0]);
    assert(with_number.get(name) == Some(in_number)) by {
        assert(with_number.step(path[0]) == with_number.get(name));
    }
    assert(with_word.get(name) == Some(in_word)) by {
        assert(with_word.step(path[0]) == with_word.get(name));
    }
    assert(value.at(rest) is Some);
    if name == "config_version"@ {
        assert(value is Int);
        if rest.len() > 0 {
            assert(value.step(rest[0]) is None);
        }
        assert(in_word == word);
        assert(config_of(with_word) is None);
        assert(!takes(tree, path, shapes()[1]));
    } else {
        assert(section_reads(name, Some(value)));
        if rest.len() == 0 {
            assert(!is_section(in_number));
            assert(!section_reads(name, Some(in_number)));
            assert(config_of(with_number) is None);
            assert(!takes(tree, path, shapes()[0]));
        } else {
            assert(rest[0] == path[1]);
            assert(value.step(rest[0]) is Some);
            let index = match path[1] {
                StepView::Key(own) => choose|i: int|
                    0 <= i < fields(name).len() && fields(name)[i] == own,
                StepView::Element(index) => index,
            };
            assert(0 <= index < fields(name).len()) by {
                match path[1] {
                    StepView::Key(own) => {
                        assert(fields(name).contains(own));
                    },
                    StepView::Element(index) => {},
                }
            }
            let own = value.step(rest[0])->0;
            assert(field(value, index, fields(name)[index]) == Some(own));
            assert(accepts(name, index, own));
            let more = rest.drop_first();
            let own_number = own.replaced(more, number);
            let own_word = own.replaced(more, word);
            lemma_stepped(value, rest[0], own_number, rest[0]);
            lemma_stepped(value, rest[0], own_word, rest[0]);
            assert(field(in_number, index, fields(name)[index]) == Some(own_number)) by {
                assert(in_number.step(rest[0]) == Some(own_number));
            }
            assert(field(in_word, index, fields(name)[index]) == Some(own_word)) by {
                assert(in_word.step(rest[0]) == Some(own_word));
            }
            if more.len() == 0 {
                if name == "editor"@ {
                    assert(!accepts(name, index, own_word));
                    assert(!section_reads(name, Some(in_word)));
                    assert(config_of(with_word) is None);
                    assert(!takes(tree, path, shapes()[1]));
                } else {
                    assert(!accepts(name, index, own_number));
                    assert(!section_reads(name, Some(in_number)));
                    assert(config_of(with_number) is None);
                    assert(!takes(tree, path, shapes()[0]));
                }
            } else {
                assert(own.at(more) is Some);
                assert(more.last() == path.last());
                lemma_accepted_leaf(name, index, own, more);
                assert(!section_reads(name, Some(in_number)));
                assert(config_of(with_number) is None);
                assert(!takes(tree, path, shapes()[0]));
            }
        }
    }
}

proof fn lemma_stale_under(tree: TomlView, node: TomlView, path: Seq<StepView>)
    ensures
        forall|i: int|
            0 <= i < stale_under(tree, node, path).len() ==> ({
                let found = #[trigger] stale_under(tree, node, path)[i];
                found.len() > 0 && found.last() is Key && ignored(tree, found)
            }),
    decreases node, 1nat, 0nat,
{
    match node {
        TomlView::Table(entries) => lemma_stale_entries(tree, node, path, entries.len()),
        TomlView::List(items) => lemma_stale_elements(tree, node, path, items.len()),
        _ => {},
    }
}

proof fn lemma_stale_entries(tree: TomlView, node: TomlView, path: Seq<StepView>, n: nat)
    ensures
        forall|i: int|
            0 <= i < stale_entries(tree, node, path, n).len() ==> ({
                let found = #[trigger] stale_entries(tree, node, path, n)[i];
                found.len() > 0 && found.last() is Key && ignored(tree, found)
            }),
    decreases node, 0nat, n,
{
    if n == 0 || !(node is Table) || n > node->Table_0.len() {
    } else {
        let entry = node->Table_0[n - 1];
        let below = path.push(StepView::Key(entry.0));
        lemma_stale_entries(tree, node, path, (n - 1) as nat);
        assert(decreases_to!(node => node->Table_0[n - 1].1));
        lemma_stale_under(tree, entry.1, below);
        let front = stale_entries(tree, node, path, (n - 1) as nat);
        let all = stale_entries(tree, node, path, n);
        assert forall|i: int| 0 <= i < all.len() implies ({
            let found = #[trigger] all[i];
            found.len() > 0 && found.last() is Key && ignored(tree, found)
        }) by {
            if i < front.len() {
                assert(all[i] == front[i]);
            } else if ignored(tree, below) {
                assert(all[i] == below);
            } else {
                assert(all[i] == stale_under(tree, entry.1, below)[i - front.len()]);
            }
        }
    }
}

proof fn lemma_stale_elements(tree: TomlView, node: TomlView, path: Seq<StepView>, n: nat)
    ensures
        forall|i: int|
            0 <= i < stale_elements(tree, node, path, n).len() ==> ({
                let found = #[trigger] stale_elements(tree, node, path, n)[i];
                found.len() > 0 && found.last() is Key && ignored(tree, found)
            }),
    decreases node, 0nat, n,
{
    if n == 0 || !(node is List) || n > node->List_0.len() {
    } else {
        let below = path.push(StepView::Element(n - 1));
        lemma_stale_elements(tree, node, path, (n - 1) as nat);
        assert(decreases_to!(node => node->List_0[n - 1]));
        lemma_stale_under(tree, node->List_0[n - 1], below);
        let front = stale_elements(tree, node, path, (n - 1) as nat);
        let all = stale_elements(tree, node, path, n);
        assert forall|i: int| 0 <= i < all.len() implies ({
            let found = #[trigger] all[i];
            found.len() > 0 && found.last() is Key && ignored(tree, found)
        }) by {
            if i < front.len() {
                assert(all[i] == front[i]);
            } else {
                assert(all[i] == stale_under(tree, node->List_0[n - 1], below)[i - front.len()]);
            }
        }
    }
}

/// What the sweep calls stale in a configuration is unknown to the schema.
proof fn lemma_stale_is_foreign(tree: TomlView, i: int)
    requires
        tree is Table,
        config_of(tree) is Some,
        0 <= i < stale(tree).len(),
    ensures
        foreign(stale(tree)[i]),
        stale(tree)[i].last() is Key,
        stale(tree)[i].len() > 0,
{
    lemma_stale_under(tree, tree, Seq::empty());
    let path = stale(tree)[i];
    assert(takes(tree, path, shapes()[0]));
    if !foreign(path) {
        law_a_known_key_is_not_stale(tree, path);
    }
}

proof fn lemma_removed_all(tree: TomlView, paths: Seq<Seq<StepView>>)
    requires
        tree is Table,
        forall|i: int| 0 <= i < paths.len() ==> foreign(#[trigger] paths[i]),
    ensures
        config_of(removed_all(tree, paths)) == config_of(tree),
        removed_all(tree, paths) is Table,
        kin(removed_all(tree, paths), tree),
    decreases paths.len(),
{
    if paths.len() > 0 {
        let front = paths.drop_last();
        assert forall|i: int| 0 <= i < front.len() implies foreign(#[trigger] front[i]) by {
            assert(front[i] == paths[i]);
        }
        lemma_removed_all(tree, front);
        let before = removed_all(tree, front);
        assert(foreign(paths[paths.len() - 1]));
        lemma_foreign_change(before, paths.last(), before.removed(paths.last()));
        let after = before.removed(paths.last());
        assert forall|name: Seq<char>| #![trigger after.get(name)] is_section_name(name) implies {
            ||| after.get(name) == tree.get(name)
            ||| after.get(name) is Some && tree.get(name) is Some && agree(
                name,
                after.get(name)->0,
                tree.get(name)->0,
            )
        } by {
            assert(before.get(name) is Some == tree.get(name) is Some);
        }
    }
}

/// A migration keeps what the user wrote: the migrated document is the same configuration, at this
/// schema's version.
pub proof fn law_a_migration_keeps_the_configuration(tree: TomlView)
    requires
        tree is Table,
        config_of(tree) is Some,
    ensures
        config_of(migrated(tree)) == Some(
            ConfigView { config_version: CONFIG_VERSION, ..config_of(tree)->0 },
        ),
{
    let paths = stale(tree);
    assert forall|i: int| 0 <= i < paths.len() implies foreign(#[trigger] paths[i]) by {
        lemma_stale_is_foreign(tree, i);
    }
    lemma_removed_all(tree, paths);
    let swept = removed_all(tree, paths);
    let version = TomlView::Int(CONFIG_VERSION as int);
    lemma_names();
    lemma_with_entry(swept, "config_version"@, version, "config_version"@);
    lemma_with_entry(swept, "config_version"@, version, "logger"@);
    lemma_with_entry(swept, "config_version"@, version, "api"@);
    lemma_with_entry(swept, "config_version"@, version, "editor"@);
    lemma_with_entry(swept, "config_version"@, version, "theme"@);
}

proof fn lemma_removed_is_table(tree: TomlView, path: Seq<StepView>)
    requires
        tree is Table,
    ensures
        tree.removed(path) is Table,
{
}

proof fn lemma_removed_all_is_table(tree: TomlView, paths: Seq<Seq<StepView>>)
    requires
        tree is Table,
    ensures
        removed_all(tree, paths) is Table,
    decreases paths.len(),
{
    if paths.len() > 0 {
        lemma_removed_all_is_table(tree, paths.drop_last());
        lemma_removed_is_table(removed_all(tree, paths.drop_last()), paths.last());
    }
}

/// What is read under a key where a table was written.
proof fn lemma_read_entry(
    tree: TomlView,
    read: TomlView,
    bare: spec_fn(Seq<StepView>) -> bool,
    path: Seq<StepView>,
    key: Seq<char>,
)
    requires
        tree is Table,
        reads_back(tree, read, bare, path),
    ensures
        match (tree.get(key), read.get(key)) {
            (Some(inner), Some(found)) => reads_back(
                inner,
                found,
                bare,
                path.push(StepView::Key(key)),
            ),
            (Some(inner), None) => unwritten(inner, bare, path.push(StepView::Key(key))),
            (None, found) => found is None,
        },
{
    lemma_find_key(tree->Table_0, key, 0);
    lemma_find_key(read->Table_0, key, 0);
    match find_key(tree->Table_0, key, 0) {
        Some(i) => {
            assert(tree->Table_0[i].0 == key);
        },
        None => {
            if let Some(j) = find_key(read->Table_0, key, 0) {
                assert(tree.get(read->Table_0[j].0) is Some);
            }
        },
    }
}

/// What a field of the schema takes is read as what it was: the same value, or the same level.
proof fn lemma_read_field(
    section: Seq<char>,
    index: int,
    value: TomlView,
    read: TomlView,
    bare: spec_fn(Seq<StepView>) -> bool,
    path: Seq<StepView>,
)
    requires
        is_section_name(section),
        accepts(section, index, value),
        forall|key: Seq<char>|
            value.get(key) == Some(TomlView::Table(Seq::empty())) ==> !bare(
                #[trigger] path.push(StepView::Key(key)),
            ),
    ensures
        !unwritten(value, bare, path),
        reads_back(value, read, bare, path) ==> {
            &&& section != "logger"@ ==> read == value
            &&& section == "logger"@ ==> level_of(read) == level_of(value)
        },
{
    if let TomlView::Table(entries) = value {
        assert(section == "logger"@);
        let key = entries[0].0;
        let inner = entries[0].1;
        let below = path.push(StepView::Key(key));
        assert(find_key(entries, key, 0) == Some(0int));
        assert(value.get(key) == Some(inner));
        if let TomlView::Table(none) = inner {
            assert(none =~= Seq::empty());
        }
        assert(!unwritten(inner, bare, below));
        assert(!unwritten(value, bare, path)) by {
            assert(entries[0] == (key, inner));
        }
        if reads_back(value, read, bare, path) {
            lemma_read_entry(value, read, bare, path, key);
            let found = read->Table_0;
            lemma_find_key(found, key, 0);
            assert forall|j: int| 0 <= j < found.len() implies (#[trigger] found[j]).0 == key by {
                assert(value.get(found[j].0) is Some);
                lemma_find_key(entries, found[j].0, 0);
            }
            if found.len() > 1 {
                assert(found[0].0 != found[1].0);
            }
            assert(found.len() == 1);
            let back = found[0].1;
            assert(read.get(key) == Some(back)) by {
                assert(find_key(found, key, 0) == Some(0int));
            }
            assert(reads_back(inner, back, bare, below));
            if inner is Table {
                if back->Table_0.len() > 0 {
                    assert(inner.get(back->Table_0[0].0) is Some);
                }
            }
            assert(hollow(back));
        }
    }
}

/// What a section of the schema is read as where it was written: its fields are the same. A section
/// of which nothing was written had none of them.
proof fn lemma_read_section(
    section: Seq<char>,
    value: TomlView,
    read: Option<TomlView>,
    bare: spec_fn(Seq<StepView>) -> bool,
)
    requires
        is_section_name(section),
        section_reads(section, Some(value)),
        match read {
            Some(read) => reads_back(value, read, bare, seq![StepView::Key(section)]),
            None => unwritten(value, bare, seq![StepView::Key(section)]),
        },
        levels_stand(section, value, bare),
    ensures
        match read {
            Some(read) => {
                &&& is_section(read)
                &&& forall|i: int|
                    0 <= i < fields(section).len() ==> same_field(
                        section,
                        field(value, i, #[trigger] fields(section)[i]),
                        field(read, i, fields(section)[i]),
                    )
            },
            None => section != "logger"@ && forall|i: int|
                0 <= i < fields(section).len() ==> field(
                    value,
                    i,
                    #[trigger] fields(section)[i],
                ) is None,
        },
{
    lemma_names();
    let path = seq![StepView::Key(section)];
    assert forall|i: int| 0 <= i < fields(section).len() implies (match read {
        Some(read) => same_field(
            section,
            field(value, i, #[trigger] fields(section)[i]),
            field(read, i, fields(section)[i]),
        ),
        None => field(value, i, fields(section)[i]) is None,
    }) by {
        let name = fields(section)[i];
        let step = if value is Table {
            StepView::Key(name)
        } else {
            StepView::Element(i)
        };
        let below = path.push(step);
        if let Some(own) = field(value, i, name) {
            assert(value.step(step) == Some(own));
            assert(accepts(section, i, own));
            assert forall|key: Seq<char>|
                own.get(key) == Some(TomlView::Table(Seq::empty())) implies !bare(
                #[trigger] below.push(StepView::Key(key)),
            ) by {
                assert(section == "logger"@);
                assert(below.push(StepView::Key(key)) =~= seq![
                    StepView::Key(section),
                    step,
                    StepView::Key(key),
                ]);
            }
            match read {
                Some(found) => {
                    if value is Table {
                        lemma_read_entry(value, found, bare, path, name);
                        match found.get(name) {
                            Some(back) => {
                                lemma_read_field(section, i, own, back, bare, below);
                            },
                            None => {
                                lemma_read_field(section, i, own, own, bare, below);
                            },
                        }
                    } else {
                        assert(value->List_0[i] == own);
                        lemma_read_field(section, i, own, found->List_0[i], bare, below);
                    }
                },
                None => {
                    lemma_find_key(value->Table_0, name, 0);
                    let k = find_key(value->Table_0, name, 0)->0;
                    assert(value->Table_0[k] == (name, own));
                    lemma_read_field(section, i, own, own, bare, below);
                },
            }
        } else if let Some(found) = read {
            if value is Table {
                lemma_read_entry(value, found, bare, path, name);
            }
        }
    }
    if read is None && section == "logger"@ {
        assert(fields(section)[0] == "log_level"@);
    }
}

/// Whether a field that was read is the field that was written, as far as the schema goes.
spec fn same_field(section: Seq<char>, value: Option<TomlView>, read: Option<TomlView>) -> bool {
    match (value, read) {
        (Some(value), Some(read)) => if section == "logger"@ {
            level_of(read) == level_of(value)
        } else {
            read == value
        },
        (None, None) => true,
        _ => false,
    }
}

/// Whether the table that stands for a level, where one does, has a header or braces of its own.
spec fn levels_stand(
    section: Seq<char>,
    value: TomlView,
    bare: spec_fn(Seq<StepView>) -> bool,
) -> bool {
    forall|step: StepView, key: Seq<char>|
        section == "logger"@ && (value.step(step) matches Some(own) && own.get(key) == Some(
            TomlView::Table(Seq::empty()),
        )) && (step == StepView::Key("log_level"@) || step == StepView::Element(0)) ==> !bare(
            #[trigger] seq![StepView::Key(section), step, StepView::Key(key)],
        )
}

/// A document is read as the configuration it was written as.
proof fn lemma_read_config(tree: TomlView, read: TomlView, bare: spec_fn(Seq<StepView>) -> bool)
    requires
        tree is Table,
        config_of(tree) is Some,
        reads_back(tree, read, bare, Seq::empty()),
        tree.get("logger"@) matches Some(value) ==> levels_stand("logger"@, value, bare),
        tree.get("config_version"@) is Some,
    ensures
        config_of(read) == config_of(tree),
        read.get("config_version"@) == tree.get("config_version"@),
{
    lemma_names();
    lemma_reads(tree);
    lemma_read_entry(tree, read, bare, Seq::empty(), "config_version"@);
    lemma_read_root(tree, read, bare, "logger"@);
    lemma_read_root(tree, read, bare, "api"@);
    lemma_read_root(tree, read, bare, "editor"@);
    lemma_read_root(tree, read, bare, "theme"@);
    let logger = fields("logger"@);
    let api = fields("api"@);
    let editor = fields("editor"@);
    let theme = fields("theme"@);
    assert(logger[0] == "log_level"@);
    assert(api[0] == "base_url"@ && api[1] == "model"@ && api[2] == "show_thinking"@ && api[3]
        == "api_key_env"@);
    assert(editor[0] == "tab_width"@);
    assert(theme[0] == "name"@ && theme[1] == "glyphs"@ && theme[2] == "color_mode"@);
    assert(logger_of(read.get("logger"@)) == logger_of(tree.get("logger"@)));
    assert(api_of(read.get("api"@)) == api_of(tree.get("api"@)));
    assert(editor_of(read.get("editor"@)) == editor_of(tree.get("editor"@)));
    assert(theme_of(read.get("theme"@)) == theme_of(tree.get("theme"@)));
}

proof fn lemma_read_root(
    tree: TomlView,
    read: TomlView,
    bare: spec_fn(Seq<StepView>) -> bool,
    section: Seq<char>,
)
    requires
        tree is Table,
        reads_back(tree, read, bare, Seq::empty()),
        is_section_name(section),
        section_reads(section, tree.get(section)),
        tree.get(section) matches Some(value) ==> levels_stand(section, value, bare),
    ensures
        match (tree.get(section), read.get(section)) {
            (None, found) => found is None,
            (Some(value), Some(found)) => is_section(found) && forall|i: int|
                0 <= i < fields(section).len() ==> same_field(
                    section,
                    field(value, i, #[trigger] fields(section)[i]),
                    field(found, i, fields(section)[i]),
                ),
            (Some(value), None) => section != "logger"@ && forall|i: int|
                0 <= i < fields(section).len() ==> field(
                    value,
                    i,
                    #[trigger] fields(section)[i],
                ) is None,
        },
{
    lemma_read_entry(tree, read, bare, Seq::empty(), section);
    assert(Seq::<StepView>::empty().push(StepView::Key(section)) =~= seq![StepView::Key(section)]);
    if let Some(value) = tree.get(section) {
        lemma_read_section(section, value, read.get(section), bare);
    }
}

/// What was migrated is read as what the user wrote: the text of a migration is a document of this
/// schema, and the same configuration.
pub proof fn law_a_migrated_text_is_the_same_configuration(
    migration: Migration,
    text: Seq<char>,
    tree: TomlView,
)
    requires
        config_of(tree) is Some,
        migration_of(migration, text, tree),
    ensures
        toml_parse(migration.text@) is Some,
        version_of(toml_parse(migration.text@)->0) == CONFIG_VERSION,
        config_of(toml_parse(migration.text@)->0) == Some(
            ConfigView { config_version: CONFIG_VERSION, ..config_of(tree)->0 },
        ),
{
    let document = choose|document: Document|
        {
            &&& #[trigger] document_tree(document) == migrated(tree)
            &&& document_text(document) == migration.text@
            &&& text_says(migration.text@, document)
            &&& as_written(document, text, tree)
        };
    let read = toml_parse(migration.text@)->0;
    let bare = bare_in(document);
    let after = migrated(tree);
    let paths = stale(tree);
    let swept = removed_all(tree, paths);
    let version = TomlView::Int(CONFIG_VERSION as int);
    law_a_migration_keeps_the_configuration(tree);
    assert forall|i: int| 0 <= i < paths.len() implies foreign(#[trigger] paths[i])
        && paths[i].len() > 0 by {
        lemma_stale_is_foreign(tree, i);
    }
    lemma_removed_all(tree, paths);
    lemma_names();
    lemma_with_entry(swept, "config_version"@, version, "config_version"@);
    lemma_with_entry(swept, "config_version"@, version, "logger"@);
    assert(fields("logger"@)[0] == "log_level"@);
    assert(fields("logger"@).contains("log_level"@));
    if let Some(value) = after.get("logger"@) {
        assert forall|step: StepView, key: Seq<char>|
            (value.step(step) matches Some(own) && own.get(key) == Some(
                TomlView::Table(Seq::empty()),
            )) && (step == StepView::Key("log_level"@) || step == StepView::Element(0)) implies !bare(
            #[trigger] seq![StepView::Key("logger"@), step, StepView::Key(key)],
        ) by {
            let path = seq![StepView::Key("logger"@), step, StepView::Key(key)];
            let before = tree.get("logger"@)->0;
            let own = value.step(step)->0;
            assert(field(value, 0, "log_level"@) == Some(own));
            assert(field(before, 0, "log_level"@) == Some(own)) by {
                if swept.get("logger"@) != tree.get("logger"@) {
                    assert(agree("logger"@, value, before));
                }
            }
            assert(before.step(step) == Some(own));
            reveal_with_fuel(TomlView::at, 4);
            assert(path.drop_first() =~= seq![step, StepView::Key(key)]);
            assert(path.drop_first().drop_first() =~= seq![StepView::Key(key)]);
            assert(path.drop_first().drop_first().drop_first() =~= Seq::<StepView>::empty());
            assert(tree.step(StepView::Key("logger"@)) == Some(before));
            assert(own.step(StepView::Key(key)) == own.get(key));
            assert(tree.at(path) == Some(TomlView::Table(Seq::empty())));
            let mark = Mark::Item(path);
            assert(parsed_marks(text, mark).len() > 0);
            assert(spared(paths, mark.path())) by {
                assert forall|i: int| 0 <= i < paths.len() implies !leads_to(
                    #[trigger] paths[i],
                    path,
                ) by {
                    assert(foreign(paths[i]));
                    if leads_to(paths[i], path) {
                        assert(path.take(paths[i].len() as int)[0] == paths[i][0]);
                        if paths[i].len() > 1 {
                            assert(path.take(paths[i].len() as int)[1] == paths[i][1]);
                        }
                    }
                }
            }
            assert(!mark.within(version_path())) by {
                if leads_to(version_path(), path) {
                    assert(path.take(1)[0] == version_path()[0]);
                }
            }
            assert(document_marks(document, mark) == parsed_marks(text, mark));
        }
    }
    lemma_read_config(after, read, bare);
}

/// A migrated document is of this schema, so it is not migrated again.
pub proof fn law_a_document_is_migrated_once(tree: TomlView)
    requires
        tree is Table,
    ensures
        version_of(migrated(tree)) == CONFIG_VERSION,
{
    lemma_removed_all_is_table(tree, stale(tree));
    lemma_with_entry(
        removed_all(tree, stale(tree)),
        "config_version"@,
        TomlView::Int(CONFIG_VERSION as int),
        "config_version"@,
    );
}

/// Taking keys out leaves each key once.
proof fn lemma_removed_tidy(tree: TomlView, path: Seq<StepView>)
    requires
        tidy(tree),
    ensures
        tidy(tree.removed(path)),
    decreases path.len(),
{
    if path.len() == 1 {
        match (tree, path[0]) {
            (TomlView::Table(entries), StepView::Key(name)) => {
                lemma_find_key(entries, name, 0);
                match find_key(entries, name, 0) {
                    Some(i) => {
                        let rest = entries.remove(i);
                        let after = TomlView::Table(rest);
                        assert forall|j: int| 0 <= j < rest.len() implies tidy(
                            (#[trigger] rest[j]).1,
                        ) by {
                            let k = if j < i {
                                j
                            } else {
                                j + 1
                            };
                            assert(rest[j] == entries[k]);
                            assert(tidy(tree->Table_0[k].1));
                        }
                        assert forall|j: int, k: int| 0 <= j < k < rest.len() implies (
                        #[trigger] rest[j]).0 != (#[trigger] rest[k]).0 by {
                            let a = if j < i {
                                j
                            } else {
                                j + 1
                            };
                            let b = if k < i {
                                k
                            } else {
                                k + 1
                            };
                            assert(rest[j] == entries[a] && rest[k] == entries[b]);
                        }
                        assert(after->Table_0 == rest);
                    },
                    None => {},
                }
            },
            _ => {},
        }
    } else if path.len() > 1 {
        match tree.step(path[0]) {
            Some(inner) => {
                let rest = path.drop_first();
                match (tree, path[0]) {
                    (TomlView::Table(entries), StepView::Key(name)) => {
                        lemma_find_key(entries, name, 0);
                        let i = find_key(entries, name, 0)->0;
                        assert(tidy(tree->Table_0[i].1));
                        lemma_removed_tidy(inner, rest);
                        let after = entries.update(i, (name, inner.removed(rest)));
                        assert forall|j: int| 0 <= j < after.len() implies tidy(
                            (#[trigger] after[j]).1,
                        ) by {
                            if j != i {
                                assert(after[j] == entries[j]);
                                assert(tidy(tree->Table_0[j].1));
                            }
                        }
                        assert forall|j: int, k: int| 0 <= j < k < after.len() implies (
                        #[trigger] after[j]).0 != (#[trigger] after[k]).0 by {
                            assert(after[j].0 == entries[j].0 && after[k].0 == entries[k].0);
                        }
                        assert(TomlView::Table(after)->Table_0 == after);
                    },
                    (TomlView::List(items), StepView::Element(index)) => {
                        assert(tidy(tree->List_0[index]));
                        lemma_removed_tidy(inner, rest);
                        let after = items.update(index, inner.removed(rest));
                        assert forall|j: int| 0 <= j < after.len() implies tidy(
                            #[trigger] after[j],
                        ) by {
                            if j != index {
                                assert(after[j] == items[j]);
                                assert(tidy(tree->List_0[j]));
                            }
                        }
                        assert(TomlView::List(after)->List_0 == after);
                    },
                    _ => {},
                }
            },
            None => {},
        }
    }
}

proof fn lemma_step_tidy(tree: TomlView, step: StepView)
    requires
        tidy(tree),
        tree.step(step) is Some,
    ensures
        tidy(tree.step(step)->0),
{
    match (tree, step) {
        (TomlView::Table(entries), StepView::Key(name)) => {
            lemma_find_key(entries, name, 0);
            let i = find_key(entries, name, 0)->0;
            assert(tidy(tree->Table_0[i].1));
        },
        (TomlView::List(items), StepView::Element(index)) => {
            assert(tidy(tree->List_0[index]));
        },
        _ => {},
    }
}

/// A key that was taken out is gone.
proof fn lemma_removed_gone(tree: TomlView, path: Seq<StepView>)
    requires
        tidy(tree),
        path.len() > 0,
        path.last() is Key,
    ensures
        tree.removed(path).at(path) is None,
    decreases path.len(),
{
    let rest = path.drop_first();
    let after = tree.removed(path);
    if path.len() == 1 {
        let name = path[0]->Key_0;
        lemma_without_gone(tree, name);
        assert(after.step(path[0]) is None) by {
            assert(after.get(name) is None);
        }
    } else {
        match tree.step(path[0]) {
            Some(inner) => {
                lemma_step_tidy(tree, path[0]);
                lemma_removed_gone(inner, rest);
                lemma_stepped(tree, path[0], inner.removed(rest), path[0]);
            },
            None => {},
        }
    }
}

/// Taking something out does not bring anything back.
proof fn lemma_removed_stays_gone(tree: TomlView, path: Seq<StepView>, gone: Seq<StepView>)
    requires
        tidy(tree),
        tree.at(gone) is None,
    ensures
        tree.removed(path).at(gone) is None,
    decreases path.len(),
{
    let after = tree.removed(path);
    if path.len() == 1 {
        if let StepView::Key(name) = path[0] {
            match gone[0] {
                StepView::Key(wanted) => {
                    if wanted == name {
                        lemma_without_gone(tree, name);
                        assert(after.step(gone[0]) is None) by {
                            assert(after.get(name) is None);
                        }
                    } else {
                        lemma_without(tree, name, wanted);
                        assert(after.step(gone[0]) == tree.step(gone[0]));
                    }
                },
                StepView::Element(_) => {
                    assert(after.step(gone[0]) == tree.step(gone[0]));
                },
            }
        }
    } else if path.len() > 1 {
        match tree.step(path[0]) {
            Some(inner) => {
                let rest = path.drop_first();
                lemma_stepped(tree, path[0], inner.removed(rest), gone[0]);
                if path[0] == gone[0] {
                    lemma_step_tidy(tree, path[0]);
                    lemma_removed_stays_gone(inner, rest, gone.drop_first());
                }
            },
            None => {},
        }
    }
}

proof fn lemma_all_gone(tree: TomlView, paths: Seq<Seq<StepView>>)
    requires
        tidy(tree),
        forall|i: int|
            0 <= i < paths.len() ==> (#[trigger] paths[i]).len() > 0 && paths[i].last() is Key,
    ensures
        tidy(removed_all(tree, paths)),
        forall|i: int|
            0 <= i < paths.len() ==> removed_all(tree, paths).at(#[trigger] paths[i]) is None,
    decreases paths.len(),
{
    if paths.len() > 0 {
        let front = paths.drop_last();
        assert forall|i: int| 0 <= i < front.len() implies (#[trigger] front[i]).len() > 0
            && front[i].last() is Key by {
            assert(front[i] == paths[i]);
        }
        lemma_all_gone(tree, front);
        let before = removed_all(tree, front);
        let last = paths.last();
        assert(paths[paths.len() - 1] == last);
        lemma_removed_tidy(before, last);
        assert forall|i: int| 0 <= i < paths.len() implies removed_all(tree, paths).at(
            #[trigger] paths[i],
        ) is None by {
            if i < front.len() {
                assert(front[i] == paths[i]);
                lemma_removed_stays_gone(before, last, paths[i]);
            } else {
                lemma_removed_gone(before, last);
            }
        }
    }
}

proof fn lemma_in_either(a: Seq<Seq<StepView>>, b: Seq<Seq<StepView>>, x: Seq<StepView>)
    requires
        a.contains(x) || b.contains(x),
    ensures
        (a + b).contains(x),
{
    if a.contains(x) {
        let i = a.index_of(x);
        assert((a + b)[i] == x);
    } else {
        let i = b.index_of(x);
        assert((a + b)[a.len() + i] == x);
    }
}

/// What the sweep finds in one entry is among what it finds in the table.
proof fn lemma_entry_swept(
    tree: TomlView,
    node: TomlView,
    path: Seq<StepView>,
    n: nat,
    i: int,
    found: Seq<StepView>,
)
    requires
        node is Table,
        0 <= i < n <= node->Table_0.len(),
        ({
            let below = path.push(StepView::Key(node->Table_0[i].0));
            if ignored(tree, below) {
                found == below
            } else {
                stale_under(tree, node->Table_0[i].1, below).contains(found)
            }
        }),
    ensures
        stale_entries(tree, node, path, n).contains(found),
    decreases n,
{
    let entry = node->Table_0[n - 1];
    let below = path.push(StepView::Key(entry.0));
    let front = stale_entries(tree, node, path, (n - 1) as nat);
    let part = if ignored(tree, below) {
        seq![below]
    } else {
        stale_under(tree, entry.1, below)
    };
    if i < n - 1 {
        lemma_entry_swept(tree, node, path, (n - 1) as nat, i, found);
    } else if ignored(tree, below) {
        assert(part[0] == found);
    }
    lemma_in_either(front, part, found);
}

/// What the sweep finds in one element is among what it finds in the array.
proof fn lemma_element_swept(
    tree: TomlView,
    node: TomlView,
    path: Seq<StepView>,
    n: nat,
    i: int,
    found: Seq<StepView>,
)
    requires
        node is List,
        0 <= i < n <= node->List_0.len(),
        stale_under(tree, node->List_0[i], path.push(StepView::Element(i))).contains(found),
    ensures
        stale_elements(tree, node, path, n).contains(found),
    decreases n,
{
    let front = stale_elements(tree, node, path, (n - 1) as nat);
    let part = stale_under(tree, node->List_0[n - 1], path.push(StepView::Element(n - 1)));
    if i < n - 1 {
        lemma_element_swept(tree, node, path, (n - 1) as nat, i, found);
    }
    lemma_in_either(front, part, found);
}

/// The sweep finds every ignored key, or a key above it.
proof fn lemma_swept(tree: TomlView, node: TomlView, path: Seq<StepView>, rest: Seq<StepView>)
    requires
        rest.len() > 0,
        rest.last() is Key,
        node.at(rest) is Some,
        ignored(tree, path + rest),
    ensures
        exists|k: int|
            0 < k <= rest.len() && stale_under(tree, node, path).contains(
                path + #[trigger] rest.take(k),
            ),
    decreases rest.len(),
{
    let inner = node.step(rest[0])->0;
    let below = path.push(rest[0]);
    let later = rest.drop_first();
    assert(path + rest =~= below + later);
    assert(path + rest.take(1) =~= below);
    if rest.len() > 1 && !ignored(tree, below) || rest[0] is Element {
        lemma_swept(tree, inner, below, later);
        let k = choose|k: int|
            0 < k <= later.len() && stale_under(tree, inner, below).contains(
                below + #[trigger] later.take(k),
            );
        let found = below + later.take(k);
        assert(found =~= path + rest.take(k + 1));
        match rest[0] {
            StepView::Key(name) => {
                lemma_find_key(node->Table_0, name, 0);
                let i = find_key(node->Table_0, name, 0)->0;
                lemma_entry_swept(tree, node, path, node->Table_0.len(), i, found);
            },
            StepView::Element(index) => {
                lemma_element_swept(tree, node, path, node->List_0.len(), index, found);
            },
        }
        assert(stale_under(tree, node, path).contains(path + rest.take(k + 1)));
    } else {
        if rest.len() == 1 {
            assert(later =~= Seq::empty());
            assert(below + later =~= below);
        }
        let name = rest[0]->Key_0;
        lemma_find_key(node->Table_0, name, 0);
        let i = find_key(node->Table_0, name, 0)->0;
        lemma_entry_swept(tree, node, path, node->Table_0.len(), i, below);
        assert(stale_under(tree, node, path).contains(path + rest.take(1)));
    }
}

/// Where nothing stands, nothing stands below.
proof fn lemma_nothing_below(tree: TomlView, path: Seq<StepView>, k: int)
    requires
        0 <= k <= path.len(),
        tree.at(path.take(k)) is None,
    ensures
        tree.at(path) is None,
    decreases path.len(),
{
    if k == 0 {
        assert(path.take(0) =~= Seq::empty());
    } else if let Some(inner) = tree.step(path[0]) {
        assert(path.take(k).drop_first() =~= path.drop_first().take(k - 1));
        lemma_nothing_below(inner, path.drop_first(), k - 1);
    }
}

proof fn lemma_all_stay_gone(tree: TomlView, paths: Seq<Seq<StepView>>, gone: Seq<StepView>)
    requires
        tidy(tree),
        tree.at(gone) is None,
    ensures
        tidy(removed_all(tree, paths)),
        removed_all(tree, paths).at(gone) is None,
    decreases paths.len(),
{
    if paths.len() > 0 {
        lemma_all_stay_gone(tree, paths.drop_last(), gone);
        let before = removed_all(tree, paths.drop_last());
        lemma_removed_tidy(before, paths.last());
        lemma_removed_stays_gone(before, paths.last(), gone);
    }
}

/// A migration drops the keys the schema does not have, at every level: no key that it does not know
/// stands in the migrated document.
pub proof fn law_unknown_keys_are_gone(tree: TomlView, path: Seq<StepView>)
    requires
        tree is Table,
        tidy(tree),
        config_of(tree) is Some,
        foreign(path),
        path.last() is Key,
    ensures
        migrated(tree).at(path) is None,
{
    let paths = stale(tree);
    let swept = removed_all(tree, paths);
    if tree.at(path) is None {
        lemma_all_stay_gone(tree, paths, path);
    } else {
        law_an_unknown_key_is_stale(tree, path);
        assert(Seq::<StepView>::empty() + path =~= path);
        lemma_swept(tree, tree, Seq::empty(), path);
        let k = choose|k: int|
            0 < k <= path.len() && paths.contains(
                Seq::<StepView>::empty() + #[trigger] path.take(k),
            );
        assert(Seq::<StepView>::empty() + path.take(k) =~= path.take(k));
        assert forall|i: int| 0 <= i < paths.len() implies (#[trigger] paths[i]).len() > 0
            && paths[i].last() is Key by {
            lemma_stale_is_foreign(tree, i);
        }
        lemma_all_gone(tree, paths);
        assert(paths[paths.index_of(path.take(k))] == path.take(k));
        lemma_nothing_below(swept, path, k);
    }
    lemma_removed_all_is_table(tree, paths);
    let name = path[0]->Key_0;
    lemma_with_entry(swept, "config_version"@, TomlView::Int(CONFIG_VERSION as int), name);
    assert(migrated(tree).step(path[0]) == swept.step(path[0]));
}

/// Taking out a key leaves the values that are not below it.
proof fn lemma_removed_elsewhere(tree: TomlView, path: Seq<StepView>, kept: Seq<StepView>)
    requires
        tree.at(kept) is Some,
        single(tree.at(kept)->0),
        path.len() > kept.len() || kept.take(path.len() as int) != path,
    ensures
        tree.removed(path).at(kept) == tree.at(kept),
    decreases path.len(),
{
    if path.len() == 0 {
        assert(kept.take(0) =~= path);
    } else if kept.len() > 0 {
        let after = tree.removed(path);
        if path.len() == 1 {
            if let StepView::Key(name) = path[0] {
                if let StepView::Key(own) = kept[0] {
                    if own == name {
                        assert(kept.take(1) =~= path);
                    }
                    lemma_without(tree, name, own);
                }
            }
        } else if let Some(inner) = tree.step(path[0]) {
            let changed = inner.removed(path.drop_first());
            lemma_stepped(tree, path[0], changed, kept[0]);
            if path[0] == kept[0] {
                let rest = kept.drop_first();
                if rest.len() >= path.len() - 1 && rest.take(path.len() - 1) == path.drop_first() {
                    assert(kept.take(path.len() as int) =~= path) by {
                        assert forall|i: int| 0 <= i < path.len() implies kept[i] == path[i] by {
                            if i > 0 {
                                assert(rest.take(path.len() - 1)[i - 1] == path.drop_first()[i - 1]);
                            }
                        }
                    }
                }
                lemma_removed_elsewhere(inner, path.drop_first(), rest);
            }
        }
    }
}

proof fn lemma_all_removed_elsewhere(
    tree: TomlView,
    paths: Seq<Seq<StepView>>,
    kept: Seq<StepView>,
)
    requires
        tree.at(kept) is Some,
        single(tree.at(kept)->0),
        forall|i: int|
            0 <= i < paths.len() ==> (#[trigger] paths[i]).len() > kept.len() || kept.take(
                paths[i].len() as int,
            ) != paths[i],
    ensures
        removed_all(tree, paths).at(kept) == tree.at(kept),
    decreases paths.len(),
{
    if paths.len() > 0 {
        let front = paths.drop_last();
        assert forall|i: int| 0 <= i < front.len() implies (#[trigger] front[i]).len() > kept.len()
            || kept.take(front[i].len() as int) != front[i] by {
            assert(front[i] == paths[i]);
        }
        lemma_all_removed_elsewhere(tree, front, kept);
        lemma_removed_elsewhere(removed_all(tree, front), paths.last(), kept);
    }
}

/// The user's keys keep their values: whatever stands under a key the schema has is the same in the
/// migrated document, but for the version.
pub proof fn law_known_keys_keep_their_values(tree: TomlView, path: Seq<StepView>)
    requires
        tree is Table,
        config_of(tree) is Some,
        tree.at(path) is Some,
        single(tree.at(path)->0),
        !foreign(path),
        path[0] != StepView::Key("config_version"@),
    ensures
        migrated(tree).at(path) == tree.at(path),
{
    let paths = stale(tree);
    let swept = removed_all(tree, paths);
    assert forall|i: int| 0 <= i < paths.len() implies (#[trigger] paths[i]).len() > path.len()
        || path.take(paths[i].len() as int) != paths[i] by {
        lemma_stale_is_foreign(tree, i);
        if paths[i].len() <= path.len() && path.take(paths[i].len() as int) == paths[i] {
            assert(paths[i][0] == path[0]);
            if paths[i].len() > 1 {
                assert(paths[i][1] == path[1]);
            }
            assert(foreign(path));
        }
    }
    lemma_all_removed_elsewhere(tree, paths, path);
    lemma_removed_all_is_table(tree, paths);
    if let StepView::Key(name) = path[0] {
        lemma_with_entry(swept, "config_version"@, TomlView::Int(CONFIG_VERSION as int), name);
    }
    assert(migrated(tree).step(path[0]) == swept.step(path[0]));
}

/// Whether a key stands before another in a table.
pub open spec fn stands_before(tree: TomlView, a: Seq<char>, b: Seq<char>) -> bool {
    &&& tree is Table
    &&& exists|i: int, j: int|
        0 <= i < j < tree->Table_0.len() && (#[trigger] tree->Table_0[i]).0 == a && (
        #[trigger] tree->Table_0[j]).0 == b
}

proof fn lemma_without_order(tree: TomlView, name: Seq<char>, a: Seq<char>, b: Seq<char>)
    requires
        stands_before(tree.without(name), a, b),
    ensures
        stands_before(tree, a, b),
{
    let entries = tree->Table_0;
    lemma_find_key(entries, name, 0);
    if let Some(k) = find_key(entries, name, 0) {
        let rest = entries.remove(k);
        let (i, j) = choose|i: int, j: int|
            0 <= i < j < rest.len() && (#[trigger] rest[i]).0 == a && (#[trigger] rest[j]).0 == b;
        let at = if i < k {
            i
        } else {
            i + 1
        };
        let to = if j < k {
            j
        } else {
            j + 1
        };
        assert(entries[at] == rest[i] && entries[to] == rest[j]);
    }
}

proof fn lemma_stepped_order(
    tree: TomlView,
    step: StepView,
    inner: TomlView,
    a: Seq<char>,
    b: Seq<char>,
)
    requires
        stands_before(tree.stepped(step, inner), a, b),
    ensures
        stands_before(tree, a, b),
{
    if let (TomlView::Table(entries), StepView::Key(name)) = (tree, step) {
        lemma_find_key(entries, name, 0);
        let after = tree.stepped(step, inner)->Table_0;
        let (i, j) = choose|i: int, j: int|
            0 <= i < j < after.len() && (#[trigger] after[i]).0 == a && (#[trigger] after[j]).0
                == b;
        assert(entries[i].0 == after[i].0 && entries[j].0 == after[j].0);
    }
}

proof fn lemma_removed_order(
    tree: TomlView,
    path: Seq<StepView>,
    at: Seq<StepView>,
    a: Seq<char>,
    b: Seq<char>,
)
    requires
        tidy(tree),
        tree.removed(path).at(at) is Some,
        stands_before(tree.removed(path).at(at)->0, a, b),
    ensures
        tree.at(at) is Some,
        stands_before(tree.at(at)->0, a, b),
    decreases path.len(),
{
    if path.len() == 0 {
    } else if path.len() == 1 {
        if let StepView::Key(name) = path[0] {
            if at.len() == 0 {
                lemma_without_order(tree, name, a, b);
            } else if let StepView::Key(own) = at[0] {
                if own == name {
                    lemma_without_gone(tree, name);
                } else {
                    lemma_without(tree, name, own);
                }
            }
        }
    } else if let Some(inner) = tree.step(path[0]) {
        let changed = inner.removed(path.drop_first());
        if at.len() == 0 {
            lemma_stepped_order(tree, path[0], changed, a, b);
        } else {
            lemma_stepped(tree, path[0], changed, at[0]);
            if path[0] == at[0] {
                lemma_step_tidy(tree, path[0]);
                lemma_removed_order(inner, path.drop_first(), at.drop_first(), a, b);
            }
        }
    }
}

proof fn lemma_all_removed_order(
    tree: TomlView,
    paths: Seq<Seq<StepView>>,
    at: Seq<StepView>,
    a: Seq<char>,
    b: Seq<char>,
)
    requires
        tidy(tree),
        removed_all(tree, paths).at(at) is Some,
        stands_before(removed_all(tree, paths).at(at)->0, a, b),
    ensures
        tree.at(at) is Some,
        stands_before(tree.at(at)->0, a, b),
    decreases paths.len(),
{
    if paths.len() > 0 {
        lemma_all_stay_tidy(tree, paths.drop_last());
        lemma_removed_order(removed_all(tree, paths.drop_last()), paths.last(), at, a, b);
        lemma_all_removed_order(tree, paths.drop_last(), at, a, b);
    }
}

proof fn lemma_all_stay_tidy(tree: TomlView, paths: Seq<Seq<StepView>>)
    requires
        tidy(tree),
    ensures
        tidy(removed_all(tree, paths)),
    decreases paths.len(),
{
    if paths.len() > 0 {
        lemma_all_stay_tidy(tree, paths.drop_last());
        lemma_removed_tidy(removed_all(tree, paths.drop_last()), paths.last());
    }
}

proof fn lemma_with_entry_order(
    tree: TomlView,
    name: Seq<char>,
    value: TomlView,
    a: Seq<char>,
    b: Seq<char>,
)
    requires
        tree is Table,
        name != b,
        stands_before(tree.with_entry(name, value), a, b),
    ensures
        stands_before(tree, a, b),
{
    let entries = tree->Table_0;
    let after = tree.with_entry(name, value)->Table_0;
    lemma_find_key(entries, name, 0);
    let (i, j) = choose|i: int, j: int|
        0 <= i < j < after.len() && (#[trigger] after[i]).0 == a && (#[trigger] after[j]).0 == b;
    assert(entries[i].0 == after[i].0 && entries[j].0 == after[j].0);
}

/// The user's keys keep their order: where one key stands before another in the migrated document,
/// it stood before it in the user's, at every level. The version alone may be new, behind the other
/// keys of the root.
pub proof fn law_keys_keep_their_order(
    tree: TomlView,
    at: Seq<StepView>,
    a: Seq<char>,
    b: Seq<char>,
)
    requires
        tree is Table,
        tidy(tree),
        migrated(tree).at(at) is Some,
        stands_before(migrated(tree).at(at)->0, a, b),
        at.len() == 0 ==> b != "config_version"@,
    ensures
        tree.at(at) is Some,
        stands_before(tree.at(at)->0, a, b),
{
    let paths = stale(tree);
    let swept = removed_all(tree, paths);
    let version = TomlView::Int(CONFIG_VERSION as int);
    lemma_removed_all_is_table(tree, paths);
    if at.len() == 0 {
        lemma_with_entry_order(swept, "config_version"@, version, a, b);
    } else if let StepView::Key(name) = at[0] {
        lemma_with_entry(swept, "config_version"@, version, name);
        if name == "config_version"@ {
            let rest = at.drop_first();
            assert(migrated(tree).step(at[0]) == Some(version));
            assert(migrated(tree).at(at) == version.at(rest));
            assert(rest.len() > 0 ==> version.step(rest[0]) is None);
        }
    }
    assert(swept.at(at) == if at.len() == 0 {
        Some(swept)
    } else {
        migrated(tree).at(at)
    });
    lemma_all_removed_order(tree, paths, at, a, b);
}

/// A document is of the version it names, where that is one; otherwise it is older than every version.
pub proof fn law_a_document_is_of_the_version_it_names(tree: TomlView, n: u32)
    ensures
        tree.get("config_version"@) == Some(TomlView::Int(n as int)) ==> version_of(tree) == n,
        version_of(tree) != 0 ==> tree.get("config_version"@) == Some(
            TomlView::Int(version_of(tree) as int),
        ),
{
}

/// A key is named the way it is read in a file: the names from the top down with dots between them,
/// and the place of an element in brackets behind its list.
pub proof fn law_a_key_is_named_from_the_top_down(
    path: Seq<StepView>,
    name: Seq<char>,
    index: int,
)
    ensures
        path_text(Seq::empty()).len() == 0,
        path_text(seq![StepView::Key(name)]) == name,
        path_text(path).len() > 0 ==> path_text(path.push(StepView::Key(name))) == path_text(path)
            + seq!['.'] + name,
        path_text(path.push(StepView::Element(index))) == path_text(path) + seq!['['] + decimal(
            index as nat,
        ) + seq![']'],
{
    assert(path.push(StepView::Key(name)).drop_last() =~= path);
    assert(path.push(StepView::Element(index)).drop_last() =~= path);
    let one = seq![StepView::Key(name)];
    assert(one.drop_last() =~= Seq::<StepView>::empty());
    assert(one.last() == StepView::Key(name));
    reveal_with_fuel(path_text, 2);
}

/// The copy of a file before its migration says which version it was.
pub proof fn law_a_backup_says_its_version(from: u32)
    ensures
        backup_extension_text(from) == "toml.bak-v"@ + decimal(from as nat),
{
}

/// What a migration drops is told, and nothing else is: each key that is told stood in the document and
/// is one the schema does not have, and each such key is told, itself or with one that it stood below.
pub proof fn law_what_is_dropped_is_told(tree: TomlView, i: int, path: Seq<StepView>)
    requires
        tree is Table,
        config_of(tree) is Some,
    ensures
        0 <= i < stale(tree).len() ==> foreign(stale(tree)[i]) && stale(tree)[i].last() is Key
            && tree.at(stale(tree)[i]) is Some,
        foreign(path) && path.last() is Key && tree.at(path) is Some ==> exists|k: int|
            0 < k <= path.len() && stale(tree).contains(#[trigger] path.take(k)),
{
    if 0 <= i < stale(tree).len() {
        lemma_stale_is_foreign(tree, i);
        lemma_stale_under(tree, tree, Seq::empty());
        assert(ignored(tree, stale(tree)[i]));
        assert(takes(tree, stale(tree)[i], shapes()[0]));
    }
    if foreign(path) && path.last() is Key && tree.at(path) is Some {
        law_an_unknown_key_is_stale(tree, path);
        assert(Seq::<StepView>::empty() + path =~= path);
        lemma_swept(tree, tree, Seq::empty(), path);
        let k = choose|k: int|
            0 < k <= path.len() && stale(tree).contains(
                Seq::<StepView>::empty() + #[trigger] path.take(k),
            );
        assert(Seq::<StepView>::empty() + path.take(k) =~= path.take(k));
    }
}

/// The keys the schema has: the version, and in each section its own fields.
pub proof fn law_the_keys_of_the_schema(section: Seq<char>, key: Seq<char>)
    ensures
        !foreign(seq![StepView::Key("config_version"@)]),
        !foreign(seq![StepView::Key("logger"@)]),
        !foreign(seq![StepView::Key("api"@)]),
        !foreign(seq![StepView::Key("editor"@)]),
        !foreign(seq![StepView::Key("theme"@)]),
        section != "config_version"@ && section != "logger"@ && section != "api"@ && section
            != "editor"@ && section != "theme"@ ==> foreign(seq![StepView::Key(section)]),
        foreign(seq![StepView::Key("logger"@), StepView::Key(key)]) <==> key != "log_level"@,
        foreign(seq![StepView::Key("editor"@), StepView::Key(key)]) <==> key != "tab_width"@,
        foreign(seq![StepView::Key("api"@), StepView::Key(key)]) <==> key != "base_url"@ && key
            != "model"@ && key != "show_thinking"@ && key != "api_key_env"@,
        foreign(seq![StepView::Key("theme"@), StepView::Key(key)]) <==> key != "name"@ && key
            != "glyphs"@ && key != "color_mode"@,
{
    lemma_names();
    let api = fields("api"@);
    assert(api[0] == "base_url"@ && api[1] == "model"@ && api[2] == "show_thinking"@ && api[3]
        == "api_key_env"@);
    let theme = fields("theme"@);
    assert(theme[0] == "name"@ && theme[1] == "glyphs"@ && theme[2] == "color_mode"@);
    assert(fields("logger"@)[0] == "log_level"@);
    assert(fields("editor"@)[0] == "tab_width"@);
}

} // verus!
