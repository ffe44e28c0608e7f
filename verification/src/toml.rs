//! TOML as a tree of plain values, and the user's document it was read from.
//!
//! What a document says is a tree, and everything that is decided about it is decided on the tree.
//! The document itself is `toml_edit`'s: it keeps the spacing, the order and the comments, so an
//! edit is made in the document and stated over the tree.

use toml_edit::{Item, TableLike, Value};
use vstd::prelude::*;

use crate::json::{distinct_keys, json_tree, plain, value_of, Json, JsonView};
use crate::text::{copy, opt_view, same};

verus! {

/// A TOML value.
#[derive(Debug, PartialEq)]
pub enum Toml {
    Nothing,
    Text(String),
    Int(i64),
    /// A number that is not whole; nothing here reads one.
    Float,
    Bool(bool),
    /// A date or a time; nothing here reads one.
    Datetime,
    /// An array, or an array of tables.
    List(Vec<Toml>),
    /// A table, however it is written.
    Table(Vec<(String, Toml)>),
}

/// What a TOML value says.
#[verifier::ext_equal]
pub enum TomlView {
    Nothing,
    Text(Seq<char>),
    Int(int),
    Float,
    Bool(bool),
    Datetime,
    List(Seq<TomlView>),
    Table(Seq<(Seq<char>, TomlView)>),
}

/// The first position of a key in a table's entries, counted from `from`.
pub open spec fn find_key(
    entries: Seq<(Seq<char>, TomlView)>,
    key: Seq<char>,
    from: int,
) -> Option<int>
    decreases entries.len() - from,
{
    if from < 0 || from >= entries.len() {
        None
    } else if entries[from].0 == key {
        Some(from)
    } else {
        find_key(entries, key, from + 1)
    }
}

pub proof fn lemma_find_key(entries: Seq<(Seq<char>, TomlView)>, key: Seq<char>, from: int)
    requires
        0 <= from,
    ensures
        match find_key(entries, key, from) {
            Some(i) => from <= i < entries.len() && entries[i].0 == key && forall|j: int|
                from <= j < i ==> (#[trigger] entries[j]).0 != key,
            None => forall|j: int| from <= j < entries.len() ==> (#[trigger] entries[j]).0 != key,
        },
    decreases entries.len() - from,
{
    if from < entries.len() && entries[from].0 != key {
        lemma_find_key(entries, key, from + 1);
    }
}

/// No key stands twice.
pub open spec fn distinct(entries: Seq<(Seq<char>, TomlView)>) -> bool {
    forall|i: int, j: int|
        0 <= i < j < entries.len() ==> (#[trigger] entries[i]).0 != (#[trigger] entries[j]).0
}

impl TomlView {
    /// What a table holds under a key; nothing for anything that is not a table.
    pub open spec fn get(self, key: Seq<char>) -> Option<TomlView> {
        match self {
            TomlView::Table(entries) => match find_key(entries, key, 0) {
                Some(i) => Some(entries[i].1),
                None => None,
            },
            _ => None,
        }
    }
}

impl Toml {
    pub open spec fn tree(self) -> TomlView
        decreases self,
    {
        match self {
            Toml::Nothing => TomlView::Nothing,
            Toml::Text(text) => TomlView::Text(text@),
            Toml::Int(n) => TomlView::Int(n as int),
            Toml::Float => TomlView::Float,
            Toml::Bool(b) => TomlView::Bool(b),
            Toml::Datetime => TomlView::Datetime,
            Toml::List(items) => TomlView::List(
                Seq::new(
                    items@.len(),
                    |i: int|
                        if 0 <= i < items@.len() {
                            items@[i].tree()
                        } else {
                            TomlView::Nothing
                        },
                ),
            ),
            Toml::Table(entries) => TomlView::Table(
                Seq::new(
                    entries@.len(),
                    |i: int|
                        if 0 <= i < entries@.len() {
                            (entries@[i].0@, entries@[i].1.tree())
                        } else {
                            (Seq::empty(), TomlView::Nothing)
                        },
                ),
            ),
        }
    }
}

impl View for Toml {
    type V = TomlView;

    open spec fn view(&self) -> TomlView {
        self.tree()
    }
}

/// The position of a key among entries.
fn position_of(entries: &Vec<(String, Toml)>, key: &str) -> (out: Option<usize>)
    ensures
        match out {
            Some(i) => i < entries@.len() && find_key(
                Toml::Table(*entries)@->Table_0,
                key@,
                0,
            ) == Some(i as int),
            None => find_key(Toml::Table(*entries)@->Table_0, key@, 0) is None,
        },
{
    let ghost all = Toml::Table(*entries)@->Table_0;
    let mut i: usize = 0;
    while i < entries.len()
        invariant
            all == Toml::Table(*entries)@->Table_0,
            i <= entries@.len(),
            find_key(all, key@, 0) == find_key(all, key@, i as int),
        decreases entries@.len() - i,
    {
        assert(all[i as int] == (entries@[i as int].0@, entries@[i as int].1@));
        if same(&entries[i].0, key) {
            return Some(i);
        }
        i += 1;
    }
    None
}

impl Toml {
    /// What a table holds under a key.
    pub fn get(&self, key: &str) -> (out: Option<&Toml>)
        ensures
            match out {
                Some(inner) => self@.get(key@) == Some(inner@),
                None => self@.get(key@) is None,
            },
    {
        match self {
            Toml::Table(entries) => match position_of(entries, key) {
                Some(i) => {
                    assert(self@->Table_0[i as int] == (
                        entries@[i as int].0@,
                        entries@[i as int].1@,
                    ));
                    Some(&entries[i].1)
                },
                None => None,
            },
            _ => None,
        }
    }
}

// ---------------------------------------------------------------------------------------------
// Places in a tree

/// One step down a tree: into the entry of a table or the element of an array.
#[derive(Debug, Clone, PartialEq)]
pub enum Step {
    Key(String),
    Element(usize),
}

#[verifier::ext_equal]
pub enum StepView {
    Key(Seq<char>),
    Element(int),
}

impl View for Step {
    type V = StepView;

    open spec fn view(&self) -> StepView {
        match *self {
            Step::Key(name) => StepView::Key(name@),
            Step::Element(index) => StepView::Element(index as int),
        }
    }
}

pub open spec fn step_views(path: Seq<Step>) -> Seq<StepView> {
    Seq::new(path.len(), |i: int| path[i]@)
}

impl Step {
    pub fn duplicate(&self) -> (out: Step)
        ensures
            out@ == self@,
    {
        match self {
            Step::Key(name) => Step::Key(copy(name)),
            Step::Element(index) => Step::Element(*index),
        }
    }
}

/// A copy of a path.
pub fn copy_path(path: &Vec<Step>) -> (out: Vec<Step>)
    ensures
        step_views(out@) == step_views(path@),
{
    let mut out: Vec<Step> = Vec::new();
    let mut i: usize = 0;
    while i < path.len()
        invariant
            i <= path@.len(),
            out@.len() == i,
            forall|k: int| 0 <= k < i ==> (#[trigger] out@[k])@ == path@[k]@,
        decreases path@.len() - i,
    {
        out.push(path[i].duplicate());
        i += 1;
    }
    assert(step_views(out@) =~= step_views(path@));
    out
}

impl TomlView {
    /// What one step leads to.
    pub open spec fn step(self, step: StepView) -> Option<TomlView> {
        match (self, step) {
            (TomlView::Table(entries), StepView::Key(name)) => self.get(name),
            (TomlView::List(items), StepView::Element(index)) => if 0 <= index < items.len() {
                Some(items[index])
            } else {
                None
            },
            _ => None,
        }
    }

    /// What stands at a path.
    pub open spec fn at(self, path: Seq<StepView>) -> Option<TomlView>
        decreases path.len(),
    {
        if path.len() == 0 {
            Some(self)
        } else {
            match self.step(path[0]) {
                Some(inner) => inner.at(path.drop_first()),
                None => None,
            }
        }
    }

    /// The tree with something else behind one step.
    pub open spec fn stepped(self, step: StepView, inner: TomlView) -> TomlView {
        match (self, step) {
            (TomlView::Table(entries), StepView::Key(name)) => match find_key(entries, name, 0) {
                Some(i) => TomlView::Table(entries.update(i, (name, inner))),
                None => self,
            },
            (TomlView::List(items), StepView::Element(index)) => if 0 <= index < items.len() {
                TomlView::List(items.update(index, inner))
            } else {
                self
            },
            _ => self,
        }
    }

    /// The tree with another value at a path; the same tree when nothing stands there.
    pub open spec fn replaced(self, path: Seq<StepView>, value: TomlView) -> TomlView
        decreases path.len(),
    {
        if path.len() == 0 {
            value
        } else {
            match self.step(path[0]) {
                Some(inner) => self.stepped(path[0], inner.replaced(path.drop_first(), value)),
                None => self,
            }
        }
    }

    /// A table without one of its keys.
    pub open spec fn without(self, name: Seq<char>) -> TomlView {
        match self {
            TomlView::Table(entries) => match find_key(entries, name, 0) {
                Some(i) => TomlView::Table(entries.remove(i)),
                None => self,
            },
            _ => self,
        }
    }

    /// The tree without the key at a path.
    pub open spec fn removed(self, path: Seq<StepView>) -> TomlView
        decreases path.len(),
    {
        if path.len() == 0 {
            self
        } else if path.len() == 1 {
            match path[0] {
                StepView::Key(name) => self.without(name),
                StepView::Element(_) => self,
            }
        } else {
            match self.step(path[0]) {
                Some(inner) => self.stepped(path[0], inner.removed(path.drop_first())),
                None => self,
            }
        }
    }

    /// A table with a value under a key: in the key's place, or at the end.
    pub open spec fn with_entry(self, name: Seq<char>, value: TomlView) -> TomlView {
        match self {
            TomlView::Table(entries) => match find_key(entries, name, 0) {
                Some(i) => TomlView::Table(entries.update(i, (name, value))),
                None => TomlView::Table(entries.push((name, value))),
            },
            _ => self,
        }
    }
}

impl Toml {
    /// What one step leads to.
    fn step(&self, step: &Step) -> (out: Option<&Toml>)
        ensures
            match out {
                Some(inner) => self@.step(step@) == Some(inner@),
                None => self@.step(step@) is None,
            },
    {
        match (self, step) {
            (Toml::Table(_), Step::Key(name)) => self.get(name),
            (Toml::List(items), Step::Element(index)) => if *index < items.len() {
                assert(self@->List_0[*index as int] == items@[*index as int]@);
                Some(&items[*index])
            } else {
                None
            },
            _ => None,
        }
    }

    /// Whether anything stands at a path, from its step `from` on.
    pub fn has_at(&self, path: &Vec<Step>, from: usize) -> (out: bool)
        requires
            from <= path@.len(),
        ensures
            out == (self@.at(step_views(path@).skip(from as int)) is Some),
        decreases path@.len() - from,
    {
        let ghost rest = step_views(path@).skip(from as int);
        if from == path.len() {
            return true;
        }
        assert(rest[0] == path@[from as int]@);
        assert(rest.drop_first() =~= step_views(path@).skip(from + 1));
        match self.step(&path[from]) {
            Some(inner) => inner.has_at(path, from + 1),
            None => false,
        }
    }

    pub fn duplicate(&self) -> (out: Toml)
        ensures
            out@ == self@,
        decreases self,
    {
        match self {
            Toml::Nothing => Toml::Nothing,
            Toml::Text(text) => Toml::Text(copy(text)),
            Toml::Int(n) => Toml::Int(*n),
            Toml::Float => Toml::Float,
            Toml::Bool(b) => Toml::Bool(*b),
            Toml::Datetime => Toml::Datetime,
            Toml::List(items) => {
                let mut list: Vec<Toml> = Vec::new();
                let mut i: usize = 0;
                while i < items.len()
                    invariant
                        *self == Toml::List(*items),
                        i <= items@.len(),
                        list@.len() == i,
                        forall|k: int| 0 <= k < i ==> (#[trigger] list@[k])@ == items@[k]@,
                    decreases items@.len() - i,
                {
                    assert(decreases_to!(*self => self->List_0@[i as int]));
                    list.push(items[i].duplicate());
                    i += 1;
                }
                let out = Toml::List(list);
                assert(out@->List_0 =~= self@->List_0) by {
                    assert forall|k: int| 0 <= k < items@.len() implies out@->List_0[k]
                        == self@->List_0[k] by {
                        assert(list@[k]@ == items@[k]@);
                    }
                }
                out
            },
            Toml::Table(entries) => {
                let mut list: Vec<(String, Toml)> = Vec::new();
                let mut i: usize = 0;
                while i < entries.len()
                    invariant
                        *self == Toml::Table(*entries),
                        i <= entries@.len(),
                        list@.len() == i,
                        forall|k: int|
                            0 <= k < i ==> (#[trigger] list@[k]).0@ == entries@[k].0@ && list@[k].1@
                                == entries@[k].1@,
                    decreases entries@.len() - i,
                {
                    assert(decreases_to!(*self => self->Table_0@[i as int].1));
                    list.push((copy(&entries[i].0), entries[i].1.duplicate()));
                    i += 1;
                }
                let out = Toml::Table(list);
                assert(out@->Table_0 =~= self@->Table_0) by {
                    assert forall|k: int| 0 <= k < entries@.len() implies out@->Table_0[k]
                        == self@->Table_0[k] by {
                        assert(list@[k].0@ == entries@[k].0@);
                    }
                }
                out
            },
        }
    }

    /// The tree with something else behind one step.
    fn stepped(self, step: &Step, inner: Toml) -> (out: Toml)
        ensures
            out@ == self@.stepped(step@, inner@),
    {
        let ghost before = self@;
        match (self, step) {
            (Toml::Table(entries), Step::Key(name)) => {
                let mut entries = entries;
                match position_of(&entries, name) {
                    Some(i) => {
                        let ghost old_entries = entries@;
                        entries[i] = (copy(name), inner);
                        let out = Toml::Table(entries);
                        assert(out@->Table_0 =~= before->Table_0.update(
                            i as int,
                            (name@, inner@),
                        )) by {
                            assert forall|k: int| 0 <= k < old_entries.len() implies out@->Table_0[k]
                                == before->Table_0.update(i as int, (name@, inner@))[k] by {
                                assert(out@->Table_0[k] == (entries@[k].0@, entries@[k].1@));
                                assert(before->Table_0[k] == (
                                    old_entries[k].0@,
                                    old_entries[k].1@,
                                ));
                            }
                        }
                        out
                    },
                    None => Toml::Table(entries),
                }
            },
            (Toml::List(items), Step::Element(index)) => {
                let mut items = items;
                if *index < items.len() {
                    let ghost old_items = items@;
                    items[*index] = inner;
                    let out = Toml::List(items);
                    assert(out@->List_0 =~= before->List_0.update(*index as int, inner@)) by {
                        assert forall|k: int| 0 <= k < old_items.len() implies out@->List_0[k]
                            == before->List_0.update(*index as int, inner@)[k] by {
                            assert(out@->List_0[k] == items@[k]@);
                            assert(before->List_0[k] == old_items[k]@);
                        }
                    }
                    out
                } else {
                    Toml::List(items)
                }
            },
            (other, _) => other,
        }
    }

    /// The tree with another value at a path, from its step `from` on.
    pub fn replaced(&self, path: &Vec<Step>, from: usize, value: &Toml) -> (out: Toml)
        requires
            from <= path@.len(),
        ensures
            out@ == self@.replaced(step_views(path@).skip(from as int), value@),
        decreases path@.len() - from,
    {
        let ghost rest = step_views(path@).skip(from as int);
        if from == path.len() {
            return value.duplicate();
        }
        assert(rest[0] == path@[from as int]@);
        assert(rest.drop_first() =~= step_views(path@).skip(from + 1));
        match self.step(&path[from]) {
            Some(inner) => {
                let changed = inner.replaced(path, from + 1, value);
                self.duplicate().stepped(&path[from], changed)
            },
            None => self.duplicate(),
        }
    }
}

// ---------------------------------------------------------------------------------------------
// The document

/// Trusted: `toml_edit::Item`, anything that stands under a key of a document.
#[verifier::external_type_specification]
#[verifier::external_body]
pub struct ExItem(toml_edit::Item);

/// Trusted: a `toml_edit::DocumentMut`, with the spacing, order and comments the user wrote. One is
/// made by parsing a text and changed by the edits below, so it never holds an entry that was
/// emptied in place.
#[verifier::external_body]
pub struct Document {
    inner: toml_edit::DocumentMut,
}

/// Trusted: `toml_edit::Value`, what stands behind an equals sign.
#[verifier::external_type_specification]
#[verifier::external_body]
pub struct ExValue(toml_edit::Value);

/// A place in a document where something may be written around what is said: around a key, or around
/// the item behind it.
#[verifier::ext_equal]
pub enum Mark {
    Key(Seq<StepView>),
    Item(Seq<StepView>),
}

impl Mark {
    pub open spec fn path(self) -> Seq<StepView> {
        match self {
            Mark::Key(path) => path,
            Mark::Item(path) => path,
        }
    }

    /// Whether the place is kept with the item behind a step: that item, or anything below it. The
    /// key that leads to the item is kept with what holds the key.
    pub open spec fn behind(self, step: StepView) -> bool {
        match self {
            Mark::Key(path) => path.len() > 1 && path[0] == step,
            Mark::Item(path) => path.len() > 0 && path[0] == step,
        }
    }

    /// The same place, seen from the item behind its first step.
    pub open spec fn tail(self) -> Mark {
        match self {
            Mark::Key(path) => Mark::Key(path.drop_first()),
            Mark::Item(path) => Mark::Item(path.drop_first()),
        }
    }

    /// Whether the place is at or below a path.
    pub open spec fn within(self, path: Seq<StepView>) -> bool {
        leads_to(path, self.path())
    }
}

/// Whether a path begins with another.
pub open spec fn leads_to(front: Seq<StepView>, path: Seq<StepView>) -> bool {
    front.len() <= path.len() && path.take(front.len() as int) == front
}

/// What is written around a place of a `toml_edit::Item`, as `toml_edit` keeps it in a `Decor`: the
/// white space and the comments before and behind a key, a value or a table's header. There is
/// nothing of the kind at a table that has neither a header nor braces of its own: one that only the
/// header of another table or a dotted key speaks of.
pub uninterp spec fn item_marks(item: toml_edit::Item, mark: Mark) -> Seq<Seq<char>>;

/// What is written around a place of a document.
pub uninterp spec fn document_marks(document: Document, mark: Mark) -> Seq<Seq<char>>;

/// What is written around a place of the document that a text is.
pub uninterp spec fn parsed_marks(text: Seq<char>, mark: Mark) -> Seq<Seq<char>>;

/// What a `toml_edit::Item` says.
pub uninterp spec fn item_tree(item: toml_edit::Item) -> TomlView;

/// What a `toml_edit::Value` says.
pub uninterp spec fn value_tree(value: toml_edit::Value) -> TomlView;

/// Whether a `toml_edit::Item` is written as a value: behind an equals sign, not under a header.
pub uninterp spec fn is_value(item: toml_edit::Item) -> bool;

/// What a document says.
pub uninterp spec fn document_tree(document: Document) -> TomlView;

/// What `toml_edit` writes for a document.
pub uninterp spec fn document_text(document: Document) -> Seq<char>;

/// What a text says when it is read as TOML; none when it is not TOML.
pub uninterp spec fn toml_parse(text: Seq<char>) -> Option<TomlView>;

/// One level of a `toml_edit::Item` or of a `toml_edit::Value`.
pub enum TomlNode {
    Nothing,
    Value(toml_edit::Value),
    Text(String),
    Int(i64),
    Float,
    Bool(bool),
    Datetime,
    List(Vec<toml_edit::Item>),
    Table(Vec<(String, toml_edit::Item)>),
}

impl View for TomlNode {
    type V = TomlView;

    open spec fn view(&self) -> TomlView {
        match *self {
            TomlNode::Nothing => TomlView::Nothing,
            TomlNode::Value(value) => value_tree(value),
            TomlNode::Text(text) => TomlView::Text(text@),
            TomlNode::Int(n) => TomlView::Int(n as int),
            TomlNode::Float => TomlView::Float,
            TomlNode::Bool(b) => TomlView::Bool(b),
            TomlNode::Datetime => TomlView::Datetime,
            TomlNode::List(items) => TomlView::List(
                Seq::new(items@.len(), |i: int| item_tree(items@[i])),
            ),
            TomlNode::Table(entries) => TomlView::Table(
                Seq::new(entries@.len(), |i: int| (entries@[i].0@, item_tree(entries@[i].1))),
            ),
        }
    }
}

/// Trusted: `DocumentMut::from_str`. Whether a text is a document, what the document says, and what
/// is written around it, depend on the text alone; the root of a document is a table; and a table
/// with nothing in it has a header or braces of its own.
#[verifier::external_body]
fn read_document(text: &str) -> (out: Option<Document>)
    ensures
        match out {
            Some(document) => {
                &&& toml_parse(text@) == Some(document_tree(document))
                &&& document_tree(document) is Table
                &&& forall|mark: Mark| #[trigger]
                    document_marks(document, mark) == parsed_marks(text@, mark)
                &&& forall|path: Seq<StepView>|
                    path.len() > 0 && document_tree(document).at(path) == Some(
                        TomlView::Table(Seq::empty()),
                    ) ==> (#[trigger] document_marks(document, Mark::Item(path))).len() > 0
            },
            None => toml_parse(text@) is None,
        },
{
    text.parse::<toml_edit::DocumentMut>().ok().map(|inner| Document { inner })
}

/// Trusted: `DocumentMut::as_item`, the root of a document, copied by `Clone`.
#[verifier::external_body]
fn root_item(document: &Document) -> (out: toml_edit::Item)
    ensures
        item_tree(out) == document_tree(*document),
{
    document.inner.as_item().clone()
}

/// Trusted: the variants of `toml_edit::Item`. Taking one level off an item gives what it says: the
/// tables of an array and the entries of a table come out in the order of the document, and a table
/// has each key once.
#[verifier::external_body]
fn open_item(item: &toml_edit::Item) -> (out: TomlNode)
    ensures
        out@ == item_tree(*item),
        out is Table ==> distinct(out@->Table_0),
{
    match item {
        Item::None => TomlNode::Nothing,
        Item::Value(value) => TomlNode::Value(value.clone()),
        Item::Table(table) => TomlNode::Table(
            table.iter().map(|(key, item)| (key.to_string(), item.clone())).collect(),
        ),
        Item::ArrayOfTables(list) => TomlNode::List(list.iter().cloned().map(Item::Table).collect()),
    }
}

/// Trusted: the variants of `toml_edit::Value`. Taking one level off a value gives what it says: the
/// elements of an array and the entries of a table come out in the order of the document, and a
/// table has each key once.
#[verifier::external_body]
fn open_value(value: &toml_edit::Value) -> (out: TomlNode)
    ensures
        out@ == value_tree(*value),
        out !is Value,
        out is Table ==> distinct(out@->Table_0),
{
    match value {
        Value::String(text) => TomlNode::Text(text.value().clone()),
        Value::Integer(n) => TomlNode::Int(*n.value()),
        Value::Float(_) => TomlNode::Float,
        Value::Boolean(b) => TomlNode::Bool(*b.value()),
        Value::Datetime(_) => TomlNode::Datetime,
        Value::Array(list) => TomlNode::List(list.iter().cloned().map(Item::Value).collect()),
        Value::InlineTable(table) => TomlNode::Table(
            TableLike::iter(table).map(|(key, item)| (key.to_string(), item.clone())).collect(),
        ),
    }
}

/// Trusted: `DocumentMut::as_item_mut`. What is done to the root is done to the document.
#[verifier::external_body]
fn root_mut(document: &mut Document) -> (out: &mut toml_edit::Item)
    ensures
        item_tree(*out) == document_tree(*old(document)),
        document_tree(*final(document)) == item_tree(*final(out)),
        forall|mark: Mark|
            #![trigger item_marks(*out, mark)]
            #![trigger document_marks(*old(document), mark)]
            item_marks(*out, mark) == document_marks(*old(document), mark),
        forall|mark: Mark| #[trigger]
            document_marks(*final(document), mark) == item_marks(*final(out), mark),
{
    document.inner.as_item_mut()
}

/// Trusted: `TableLike::get_mut` of `Item::as_table_like_mut`. What is done to the entry under a
/// key, short of emptying or filling it or changing how it is written, is done to the table; the keys
/// and the other entries stay as they are written.
#[verifier::external_body]
fn entry_mut<'a>(item: &'a mut toml_edit::Item, key: &str) -> (out: Option<
    &'a mut toml_edit::Item,
>)
    ensures
        is_value(*final(item)) == is_value(*old(item)),
        match out {
            Some(inner) => {
                &&& item_tree(*old(item)).get(key@) == Some(item_tree(*inner))
                &&& is_value(*final(inner)) == is_value(*inner) && (item_tree(
                    *final(inner),
                ) is Nothing) == (item_tree(*inner) is Nothing) ==> item_tree(*final(item))
                    == item_tree(*old(item)).stepped(
                    StepView::Key(key@),
                    item_tree(*final(inner)),
                ) && forall|mark: Mark| #[trigger]
                    item_marks(*final(item), mark) == if mark.behind(StepView::Key(key@)) {
                        item_marks(*final(inner), mark.tail())
                    } else {
                        item_marks(*old(item), mark)
                    }
                &&& forall|mark: Mark|
                    mark.behind(StepView::Key(key@)) ==> #[trigger] item_marks(*old(item), mark)
                        == item_marks(*inner, mark.tail())
            },
            None => {
                &&& item_tree(*old(item)).get(key@) is None
                &&& item_tree(*final(item)) == item_tree(*old(item))
                &&& forall|mark: Mark| #[trigger]
                    item_marks(*final(item), mark) == item_marks(*old(item), mark)
            },
        },
{
    item.as_table_like_mut()?.get_mut(key)
}

/// Trusted: `Item::get_mut` with an index. What is done to an element of an array, short of emptying
/// or filling it, changing how it is written or turning a table into anything else, is done to the
/// array; the other elements stay as they are written.
#[verifier::external_body]
fn element_mut(item: &mut toml_edit::Item, index: usize) -> (out: Option<&mut toml_edit::Item>)
    ensures
        is_value(*final(item)) == is_value(*old(item)),
        match out {
            Some(inner) => {
                &&& item_tree(*old(item)).step(StepView::Element(index as int)) == Some(
                    item_tree(*inner),
                )
                &&& is_value(*final(inner)) == is_value(*inner) && (item_tree(
                    *final(inner),
                ) is Nothing) == (item_tree(*inner) is Nothing) && (item_tree(
                    *final(inner),
                ) is Table) == (item_tree(*inner) is Table) ==> item_tree(*final(item))
                    == item_tree(*old(item)).stepped(
                    StepView::Element(index as int),
                    item_tree(*final(inner)),
                ) && forall|mark: Mark| #[trigger]
                    item_marks(*final(item), mark) == if mark.behind(
                        StepView::Element(index as int),
                    ) {
                        item_marks(*final(inner), mark.tail())
                    } else {
                        item_marks(*old(item), mark)
                    }
                &&& forall|mark: Mark|
                    mark.behind(StepView::Element(index as int)) ==> #[trigger] item_marks(
                        *old(item),
                        mark,
                    ) == item_marks(*inner, mark.tail())
            },
            None => {
                &&& item_tree(*old(item)).step(StepView::Element(index as int)) is None
                &&& item_tree(*final(item)) == item_tree(*old(item))
                &&& forall|mark: Mark| #[trigger]
                    item_marks(*final(item), mark) == item_marks(*old(item), mark)
            },
        },
{
    item.get_mut(index)
}

/// Trusted: `TableLike::remove` of `Item::as_table_like_mut`, which takes a key out of a table, with
/// its own comment, and leaves the rest in order and as it is written.
#[verifier::external_body]
fn remove_entry(item: &mut toml_edit::Item, key: &str)
    ensures
        item_tree(*final(item)) == item_tree(*old(item)).without(key@),
        is_value(*final(item)) == is_value(*old(item)),
        forall|mark: Mark|
            !mark.within(seq![StepView::Key(key@)]) ==> #[trigger] item_marks(*final(item), mark)
                == item_marks(*old(item), mark),
{
    if let Some(entries) = item.as_table_like_mut() {
        entries.remove(key);
    }
}

/// Trusted: `Item::is_value`. What is written as a value is not nothing, and what holds no others,
/// neither a table nor an array, is always written as one.
#[verifier::external_body]
fn written_as_value(item: &toml_edit::Item) -> (out: bool)
    ensures
        out == is_value(*item),
        out ==> item_tree(*item) !is Nothing,
        single(item_tree(*item)) && item_tree(*item) !is Nothing ==> out,
{
    item.is_value()
}

/// Trusted: `Value::decor` and `Value::decor_mut` around an assignment. A value is replaced by a
/// number, and the number is handed the spacing and the comment of the value.
#[verifier::external_body]
fn write_integer(item: &mut toml_edit::Item, n: i64)
    requires
        is_value(*old(item)),
    ensures
        item_tree(*final(item)) == TomlView::Int(n as int),
        is_value(*final(item)),
        item_marks(*final(item), Mark::Item(Seq::empty())) == item_marks(
            *old(item),
            Mark::Item(Seq::empty()),
        ),
{
    if let Some(existing) = item.as_value_mut() {
        let mut value = toml_edit::Value::from(n);
        *value.decor_mut() = existing.decor().clone();
        *existing = value;
    }
}

/// Trusted: `Table::insert` on the root of a document, which has to be a table. A number is put in
/// the place of what the key holds, or behind the other keys, and those stay as they are written.
#[verifier::external_body]
fn insert_integer(document: &mut Document, key: &str, n: i64)
    requires
        document_tree(*old(document)) is Table,
    ensures
        document_tree(*final(document)) == document_tree(*old(document)).with_entry(
            key@,
            TomlView::Int(n as int),
        ),
        forall|mark: Mark|
            !mark.within(seq![StepView::Key(key@)]) ==> #[trigger] document_marks(
                *final(document),
                mark,
            ) == document_marks(*old(document), mark),
{
    document.inner.insert(key, toml_edit::Item::Value(toml_edit::Value::from(n)));
}

/// Whether a value holds no others.
pub open spec fn single(value: TomlView) -> bool {
    !(value is Table) && !(value is List)
}

/// Whether nothing is written for what stands at a path: a table without a header or braces of its
/// own, in which everything else, if there is anything, is not written either.
pub open spec fn unwritten(
    tree: TomlView,
    bare: spec_fn(Seq<StepView>) -> bool,
    path: Seq<StepView>,
) -> bool
    decreases tree,
{
    match tree {
        TomlView::Table(entries) => bare(path) && forall|i: int|
            0 <= i < entries.len() ==> unwritten(
                (#[trigger] entries[i]).1,
                bare,
                path.push(StepView::Key(entries[i].0)),
            ),
        _ => false,
    }
}

/// Whether this is what is read where a tree was written: the same values at the same places, and
/// the same arrays and tables around them, but for the tables of which nothing is written. In what
/// order the keys of a table are read is left open.
pub open spec fn reads_back(
    tree: TomlView,
    read: TomlView,
    bare: spec_fn(Seq<StepView>) -> bool,
    path: Seq<StepView>,
) -> bool
    decreases tree,
{
    match tree {
        TomlView::List(items) => {
            &&& read is List
            &&& read->List_0.len() == items.len()
            &&& forall|i: int|
                #![trigger items[i]]
                0 <= i < items.len() ==> reads_back(
                    items[i],
                    read->List_0[i],
                    bare,
                    path.push(StepView::Element(i)),
                )
        },
        TomlView::Table(entries) => {
            &&& read is Table
            &&& distinct(read->Table_0)
            &&& forall|i: int|
                0 <= i < entries.len() ==> (match read.get((#[trigger] entries[i]).0) {
                    Some(inner) => reads_back(
                        entries[i].1,
                        inner,
                        bare,
                        path.push(StepView::Key(entries[i].0)),
                    ),
                    None => unwritten(
                        entries[i].1,
                        bare,
                        path.push(StepView::Key(entries[i].0)),
                    ),
                })
            &&& forall|j: int|
                0 <= j < read->Table_0.len() ==> tree.get((#[trigger] read->Table_0[j]).0) is Some
        },
        _ => read == tree,
    }
}

/// The tables of a document that have neither a header nor braces of their own.
pub open spec fn bare_in(document: Document) -> spec_fn(Seq<StepView>) -> bool {
    |path: Seq<StepView>| document_marks(document, Mark::Item(path)).len() == 0
}

/// Whether a text is what was written for a document: it is TOML, and what it says is the document.
pub open spec fn text_says(text: Seq<char>, document: Document) -> bool {
    match toml_parse(text) {
        Some(read) => reads_back(
            document_tree(document),
            read,
            bare_in(document),
            Seq::empty(),
        ),
        None => false,
    }
}

/// Trusted: `DocumentMut::to_string`, for a document whose root is a table. What is written depends
/// on the document alone, and `DocumentMut::from_str` reads it: every value where it stood, in the
/// arrays and tables it stood in. A table without a header or braces of its own is written only by
/// what is in it.
#[verifier::external_body]
fn write_document(document: &Document) -> (out: String)
    requires
        document_tree(*document) is Table,
    ensures
        out@ == document_text(*document),
        text_says(out@, *document),
{
    document.inner.to_string()
}

/// The whole of a `toml_edit::Item`.
fn close_item(item: toml_edit::Item) -> (out: Toml)
    ensures
        out@ == item_tree(item),
        tidy(out@),
    decreases item_tree(item), 1nat,
{
    match open_item(&item) {
        TomlNode::Value(value) => close_node(open_value(&value)),
        node => close_node(node),
    }
}

/// The whole of what one level was taken off.
fn close_node(node: TomlNode) -> (out: Toml)
    requires
        node !is Value,
        node is Table ==> distinct(node@->Table_0),
    ensures
        out@ == node@,
        tidy(out@),
    decreases node@, 0nat,
{
    match node {
        TomlNode::Nothing => Toml::Nothing,
        TomlNode::Value(_) => Toml::Nothing,
        TomlNode::Text(text) => Toml::Text(text),
        TomlNode::Int(n) => Toml::Int(n),
        TomlNode::Float => Toml::Float,
        TomlNode::Bool(b) => Toml::Bool(b),
        TomlNode::Datetime => Toml::Datetime,
        TomlNode::List(items) => {
            let ghost want = node@->List_0;
            let mut list: Vec<Toml> = Vec::new();
            let ghost all = items@;
            for one in iter: items
                invariant
                    iter.seq() == all,
                    node@ == TomlView::List(want),
                    want.len() == all.len(),
                    forall|k: int| 0 <= k < all.len() ==> #[trigger] want[k] == item_tree(all[k]),
                    list@.len() == iter.index(),
                    forall|k: int|
                        0 <= k < list@.len() ==> (#[trigger] list@[k])@ == want[k] && tidy(want[k]),
            {
                assert(want[list@.len() as int] == item_tree(one));
                assert(decreases_to!(node@ => node@->List_0[list@.len() as int]));
                list.push(close_item(one));
            }
            let out = Toml::List(list);
            assert(out@->List_0 =~= want);
            assert forall|k: int| 0 <= k < out@->List_0.len() implies tidy(
                #[trigger] out@->List_0[k],
            ) by {
                assert(list@[k]@ == want[k]);
            }
            out
        },
        TomlNode::Table(entries) => {
            let ghost want = node@->Table_0;
            let mut list: Vec<(String, Toml)> = Vec::new();
            let ghost all = entries@;
            for entry in iter: entries
                invariant
                    iter.seq() == all,
                    node@ == TomlView::Table(want),
                    want.len() == all.len(),
                    forall|k: int|
                        0 <= k < all.len() ==> #[trigger] want[k] == (
                            all[k].0@,
                            item_tree(all[k].1),
                        ),
                    list@.len() == iter.index(),
                    forall|k: int|
                        0 <= k < list@.len() ==> (#[trigger] list@[k]).0@ == want[k].0
                            && list@[k].1@ == want[k].1 && tidy(want[k].1),
            {
                assert(want[list@.len() as int] == (entry.0@, item_tree(entry.1)));
                assert(decreases_to!(node@ => node@->Table_0[list@.len() as int].1));
                list.push((entry.0, close_item(entry.1)));
            }
            let out = Toml::Table(list);
            assert(out@->Table_0 =~= want) by {
                assert forall|k: int| 0 <= k < want.len() implies out@->Table_0[k] == want[k] by {
                    assert(list@[k].0@ == want[k].0);
                }
            }
            assert forall|k: int| 0 <= k < out@->Table_0.len() implies tidy(
                (#[trigger] out@->Table_0[k]).1,
            ) by {
                assert(list@[k].0@ == want[k].0);
            }
            out
        },
    }
}

/// Whether every table of a tree has each key once.
pub open spec fn tidy(tree: TomlView) -> bool
    decreases tree,
{
    match tree {
        TomlView::List(items) => forall|i: int|
            #![trigger items[i]]
            0 <= i < items.len() ==> tidy(items[i]),
        TomlView::Table(entries) => {
            &&& distinct(entries)
            &&& forall|i: int| 0 <= i < entries.len() ==> tidy((#[trigger] entries[i]).1)
        },
        _ => true,
    }
}

/// A place behind a step that is not at or below a path that begins with the step is, seen from
/// there, not at or below the rest of the path; and a place that is not at or below a step alone is
/// not behind it.
proof fn lemma_marks_below(path: Seq<StepView>)
    requires
        path.len() > 0,
    ensures
        forall|mark: Mark|
            mark.behind(path[0]) && !#[trigger] mark.within(path) ==> !mark.tail().within(
                path.drop_first(),
            ),
        forall|mark: Mark|
            path.len() == 1 && !#[trigger] mark.within(path) ==> !mark.behind(path[0]),
{
    assert forall|mark: Mark| mark.behind(path[0]) && !#[trigger] mark.within(path) implies !mark
        .tail().within(path.drop_first()) by {
        let front = path.drop_first();
        let rest = mark.path().drop_first();
        if leads_to(front, rest) {
            assert(mark.path().take(path.len() as int) =~= path) by {
                assert forall|i: int| 0 <= i < path.len() implies mark.path()[i] == path[i] by {
                    if i > 0 {
                        assert(rest.take(front.len() as int)[i - 1] == front[i - 1]);
                    }
                }
            }
        }
    }
    assert forall|mark: Mark| path.len() == 1 && !#[trigger] mark.within(path) implies !mark.behind(
        path[0],
    ) by {
        if mark.behind(path[0]) {
            assert(mark.path().take(1) =~= path);
        }
    }
}

/// Takes the key at a path, from its step `from` on, out of an item.
fn remove_below(item: &mut toml_edit::Item, path: &Vec<Step>, from: usize)
    requires
        from < path@.len(),
    ensures
        item_tree(*final(item)) == item_tree(*old(item)).removed(
            step_views(path@).skip(from as int),
        ),
        is_value(*final(item)) == is_value(*old(item)),
        (item_tree(*old(item)) is Nothing) == (item_tree(*final(item)) is Nothing),
        (item_tree(*old(item)) is Table) == (item_tree(*final(item)) is Table),
        forall|mark: Mark|
            !mark.within(step_views(path@).skip(from as int)) ==> #[trigger] item_marks(
                *final(item),
                mark,
            ) == item_marks(*old(item), mark),
    decreases path@.len() - from,
{
    let ghost rest = step_views(path@).skip(from as int);
    assert(rest[0] == path@[from as int]@);
    proof {
        lemma_marks_below(rest);
        if rest.len() == 1 {
            assert(rest =~= seq![rest[0]]);
        }
    }
    let last: bool = path.len() - from == 1;
    match &path[from] {
        Step::Key(name) => {
            if last {
                remove_entry(item, name);
            } else {
                assert(rest.drop_first() =~= step_views(path@).skip(from + 1));
                match entry_mut(item, name) {
                    Some(inner) => {
                        remove_below(inner, path, from + 1);
                    },
                    None => {},
                }
            }
        },
        Step::Element(index) => {
            if !last {
                assert(rest.drop_first() =~= step_views(path@).skip(from + 1));
                match element_mut(item, *index) {
                    Some(inner) => {
                        remove_below(inner, path, from + 1);
                    },
                    None => {},
                }
            }
        },
    }
}

/// Taking out a key leaves the others where they were found.
pub proof fn lemma_without(tree: TomlView, name: Seq<char>, other: Seq<char>)
    requires
        name != other,
    ensures
        tree.without(name).get(other) == tree.get(other),
        (tree.without(name) is Table) == (tree is Table),
        (tree.without(name) is List) == (tree is List),
        (tree.without(name) is Datetime) == (tree is Datetime),
{
    if let TomlView::Table(entries) = tree {
        lemma_find_key(entries, name, 0);
        lemma_find_key(entries, other, 0);
        match find_key(entries, name, 0) {
            Some(i) => {
                let rest = entries.remove(i);
                lemma_find_key(rest, other, 0);
                match find_key(entries, other, 0) {
                    Some(k) => {
                        let at = if k < i {
                            k
                        } else {
                            k - 1
                        };
                        assert(rest[at] == entries[k]);
                        let found = find_key(rest, other, 0)->0;
                        assert forall|j: int| 0 <= j < at implies (#[trigger] rest[j]).0 != other by {
                            if j < i {
                                assert(rest[j] == entries[j]);
                            } else {
                                assert(rest[j] == entries[j + 1]);
                            }
                        }
                        assert(found == at);
                    },
                    None => {
                        assert forall|j: int| 0 <= j < rest.len() implies (#[trigger] rest[j]).0
                            != other by {
                            if j < i {
                                assert(rest[j] == entries[j]);
                            } else {
                                assert(rest[j] == entries[j + 1]);
                            }
                        }
                    },
                }
            },
            None => {},
        }
    }
}

/// In a table that has each key once, a key that is taken out is gone.
pub proof fn lemma_without_gone(tree: TomlView, name: Seq<char>)
    requires
        tree is Table ==> distinct(tree->Table_0),
    ensures
        tree.without(name).get(name) is None,
{
    if let TomlView::Table(entries) = tree {
        lemma_find_key(entries, name, 0);
        match find_key(entries, name, 0) {
            Some(i) => {
                let rest = entries.remove(i);
                lemma_find_key(rest, name, 0);
                assert forall|j: int| 0 <= j < rest.len() implies (#[trigger] rest[j]).0 != name by {
                    if j < i {
                        assert(rest[j] == entries[j]);
                    } else {
                        assert(rest[j] == entries[j + 1]);
                    }
                }
            },
            None => {},
        }
    }
}

/// What a step leads to after something was put behind a step.
pub proof fn lemma_stepped(tree: TomlView, step: StepView, inner: TomlView, other: StepView)
    ensures
        tree.stepped(step, inner).step(other) == if step == other && tree.step(step) is Some {
            Some(inner)
        } else {
            tree.step(other)
        },
        (tree.stepped(step, inner) is Table) == (tree is Table),
        (tree.stepped(step, inner) is List) == (tree is List),
        (tree.stepped(step, inner) is Datetime) == (tree is Datetime),
{
    match (tree, step, other) {
        (TomlView::Table(entries), StepView::Key(name), StepView::Key(wanted)) => {
            lemma_find_key(entries, name, 0);
            lemma_find_key(entries, wanted, 0);
            match find_key(entries, name, 0) {
                Some(i) => {
                    let after = entries.update(i, (name, inner));
                    lemma_find_key(after, wanted, 0);
                    assert forall|j: int| 0 <= j < after.len() implies (#[trigger] after[j]).0
                        == entries[j].0 by {}
                    match find_key(entries, wanted, 0) {
                        Some(k) => {
                            assert(after[k].0 == wanted);
                            let found = find_key(after, wanted, 0)->0;
                            assert(after[found].0 == entries[found].0);
                            assert(found == k);
                        },
                        None => {
                            if let Some(found) = find_key(after, wanted, 0) {
                                assert(after[found].0 == entries[found].0);
                            }
                        },
                    }
                },
                None => {},
            }
        },
        _ => {},
    }
}

/// What stands under a key after a value was put under a key.
pub proof fn lemma_with_entry(tree: TomlView, name: Seq<char>, value: TomlView, wanted: Seq<char>)
    requires
        tree is Table,
    ensures
        tree.with_entry(name, value).get(wanted) == if name == wanted {
            Some(value)
        } else {
            tree.get(wanted)
        },
        tree.with_entry(name, value) is Table,
{
    let entries = tree->Table_0;
    lemma_find_key(entries, name, 0);
    match find_key(entries, name, 0) {
        Some(i) => {
            lemma_stepped(tree, StepView::Key(name), value, StepView::Key(wanted));
        },
        None => {
            let after = entries.push((name, value));
            lemma_find_key(entries, wanted, 0);
            lemma_find_key(after, wanted, 0);
            assert forall|j: int| 0 <= j < entries.len() implies (#[trigger] after[j])
                == entries[j] by {}
            match find_key(entries, wanted, 0) {
                Some(k) => {
                    assert(after[k] == entries[k]);
                    assert(find_key(after, wanted, 0) == Some(k));
                },
                None => {
                    if name == wanted {
                        assert(after[entries.len() as int] == (name, value));
                    }
                },
            }
        },
    }
}

/// Putting back what stands behind a step changes nothing.
proof fn lemma_step_same(tree: TomlView, step: StepView, inner: TomlView)
    requires
        tree.step(step) == Some(inner),
    ensures
        tree.stepped(step, inner) == tree,
{
    match (tree, step) {
        (TomlView::Table(entries), StepView::Key(name)) => {
            lemma_find_key(entries, name, 0);
            let i = find_key(entries, name, 0)->0;
            assert(entries.update(i, (name, inner)) =~= entries);
        },
        (TomlView::List(items), StepView::Element(index)) => {
            assert(items.update(index, inner) =~= items);
        },
        _ => {},
    }
}

/// What is written around a key of the root and around its value.
pub open spec fn line_marks(document: Document, key: Seq<char>) -> (Seq<Seq<char>>, Seq<Seq<char>>) {
    (
        document_marks(document, Mark::Key(seq![StepView::Key(key)])),
        document_marks(document, Mark::Item(seq![StepView::Key(key)])),
    )
}

/// Whether a document is as a text spells it: what is written around it is what stands in the text,
/// and a table with nothing in it has a header or braces of its own.
pub open spec fn is_read(document: Document, text: Seq<char>) -> bool {
    &&& forall|mark: Mark| #[trigger] document_marks(document, mark) == parsed_marks(text, mark)
    &&& forall|path: Seq<StepView>|
        path.len() > 0 && document_tree(document).at(path) == Some(
            TomlView::Table(Seq::empty()),
        ) ==> (#[trigger] document_marks(document, Mark::Item(path))).len() > 0
}

impl Document {
    /// Reads a text as TOML.
    pub fn parse(text: &str) -> (out: Option<Document>)
        ensures
            match out {
                Some(document) => toml_parse(text@) == Some(document_tree(document))
                    && document_tree(document) is Table && is_read(document, text@),
                None => toml_parse(text@) is None,
            },
    {
        read_document(text)
    }

    /// What the document says.
    pub fn tree(&self) -> (out: Toml)
        ensures
            out@ == document_tree(*self),
            tidy(out@),
    {
        close_item(root_item(self))
    }

    /// Takes the key at a path out of the document; its own comment goes with it, and everything else
    /// stays as it is written.
    pub fn remove(&mut self, path: &Vec<Step>)
        ensures
            document_tree(*final(self)) == document_tree(*old(self)).removed(step_views(path@)),
            (document_tree(*final(self)) is Table) == (document_tree(*old(self)) is Table),
            forall|mark: Mark|
                path@.len() == 0 || !mark.within(step_views(path@)) ==> #[trigger] document_marks(
                    *final(self),
                    mark,
                ) == document_marks(*old(self), mark),
    {
        if path.len() > 0 {
            assert(step_views(path@).skip(0) =~= step_views(path@));
            let root = root_mut(self);
            remove_below(root, path, 0);
        }
    }

    /// Puts a number under a key of the root, in place: whatever the user has on that line, their own
    /// spacing, a comment at the end of it or above it, stays there. Everything else stays as it is
    /// written.
    pub fn set_integer(&mut self, key: &str, n: i64)
        requires
            document_tree(*old(self)) is Table,
        ensures
            document_tree(*final(self)) == document_tree(*old(self)).with_entry(
                key@,
                TomlView::Int(n as int),
            ),
            forall|mark: Mark|
                !mark.within(seq![StepView::Key(key@)]) ==> #[trigger] document_marks(
                    *final(self),
                    mark,
                ) == document_marks(*old(self), mark),
            (document_tree(*old(self)).get(key@) matches Some(value) && single(value)
                && value !is Nothing) ==> line_marks(*final(self), key@) == line_marks(
                *old(self),
                key@,
            ),
    {
        proof {
            let here = Seq::<StepView>::empty().push(StepView::Key(key@));
            lemma_marks_below(here);
            assert(here =~= seq![StepView::Key(key@)]);
            assert(here.drop_first() =~= Seq::<StepView>::empty());
            assert(Mark::Item(here).tail() == Mark::Item(Seq::empty()));
        }
        let root = root_mut(self);
        match entry_mut(root, key) {
            Some(slot) => {
                let ghost there = item_tree(*slot);
                if written_as_value(slot) {
                    write_integer(slot, n);
                    return;
                }
                proof {
                    lemma_step_same(document_tree(*old(self)), StepView::Key(key@), there);
                }
            },
            None => {},
        }
        insert_integer(self, key, n);
    }

    /// The document's text.
    pub fn text(&self) -> (out: String)
        requires
            document_tree(*self) is Table,
        ensures
            out@ == document_text(*self),
            text_says(out@, *self),
    {
        write_document(self)
    }
}

// ---------------------------------------------------------------------------------------------
// A new document

/// What TOML says for what JSON says.
pub open spec fn toml_of(tree: JsonView) -> TomlView
    decreases tree,
{
    match tree {
        JsonView::Null => TomlView::Nothing,
        JsonView::Bool(flag) => TomlView::Bool(flag),
        JsonView::Int(n) => TomlView::Int(n),
        JsonView::Float(_) => TomlView::Float,
        JsonView::Text(text) => TomlView::Text(text),
        JsonView::List(items) => TomlView::List(
            Seq::new(
                items.len(),
                |i: int|
                    if 0 <= i < items.len() {
                        toml_of(items[i])
                    } else {
                        TomlView::Nothing
                    },
            ),
        ),
        JsonView::Object(entries) => TomlView::Table(
            Seq::new(
                entries.len(),
                |i: int|
                    if 0 <= i < entries.len() {
                        (entries[i].0, toml_of(entries[i].1))
                    } else {
                        (Seq::empty(), TomlView::Nothing)
                    },
            ),
        ),
    }
}

/// Whether a value fits on the line of its key: a text, a flag, or a number as large as TOML has.
pub open spec fn one_line(value: JsonView) -> bool {
    match value {
        JsonView::Text(_) | JsonView::Bool(_) => true,
        JsonView::Int(n) => i64::MIN <= n <= i64::MAX,
        _ => false,
    }
}

/// Whether a value is a section: a table with nothing but lines in it.
pub open spec fn plain_section(value: JsonView) -> bool {
    match value {
        JsonView::Object(entries) => distinct_keys(entries) && forall|i: int|
            0 <= i < entries.len() ==> one_line((#[trigger] entries[i]).1),
        _ => false,
    }
}

/// Whether a document is lines, and after them sections.
pub open spec fn sectioned(tree: JsonView) -> bool {
    match tree {
        JsonView::Object(entries) => {
            &&& distinct_keys(entries)
            &&& forall|i: int|
                0 <= i < entries.len() ==> one_line((#[trigger] entries[i]).1) || plain_section(
                    entries[i].1,
                )
            &&& forall|i: int, j: int|
                0 <= i < j < entries.len() && one_line((#[trigger] entries[j]).1) ==> one_line(
                    (#[trigger] entries[i]).1,
                )
        },
        _ => false,
    }
}

/// What `toml_edit::ser::to_string_pretty` writes for a document, if it can be written as TOML.
pub uninterp spec fn toml_text(tree: JsonView) -> Option<Seq<char>>;

/// Trusted: `toml_edit::ser::to_string_pretty` of a `serde_json::Value`. The text, or that there is
/// none, depends on what the value holds alone. A document of lines and then sections can always be
/// written: its lines come first, each section follows under its header, and `toml_edit` reads the
/// same entries back in the same order. What is written for other documents is left open.
#[verifier::external_body]
fn write_pretty(value: &serde_json::Value) -> (out: Option<String>)
    ensures
        opt_view(out) == toml_text(json_tree(*value)),
        sectioned(json_tree(*value)) ==> (match out {
            Some(text) => toml_parse(text@) == Some(toml_of(json_tree(*value))),
            None => false,
        }),
{
    toml_edit::ser::to_string_pretty(value).ok()
}

/// The text of a new document.
pub fn pretty_toml(json: &Json) -> (out: Option<String>)
    requires
        exists|depth: nat| #[trigger] plain(json@, depth),
    ensures
        opt_view(out) == toml_text(json@),
        sectioned(json@) ==> (match out {
            Some(text) => toml_parse(text@) == Some(toml_of(json@)),
            None => false,
        }),
{
    write_pretty(&value_of(json))
}

// ---------------------------------------------------------------------------------------------
// Laws

/// A table holds under a key what its first entry of that name says, and nothing under a name that no
/// entry has; what is no table holds nothing under any.
pub proof fn law_a_table_holds_what_its_entries_say(
    entries: Seq<(Seq<char>, TomlView)>,
    key: Seq<char>,
    i: int,
    other: TomlView,
)
    ensures
        0 <= i < entries.len() && entries[i].0 == key && (forall|j: int|
            0 <= j < i ==> (#[trigger] entries[j]).0 != key) ==> TomlView::Table(entries).get(key)
            == Some(entries[i].1),
        (forall|j: int| 0 <= j < entries.len() ==> (#[trigger] entries[j]).0 != key)
            ==> TomlView::Table(entries).get(key) is None,
        !(other is Table) ==> other.get(key) is None,
{
    lemma_find_key(entries, key, 0);
}

/// What is put at a path that leads somewhere is found there; at a path that leads nowhere nothing is
/// put.
pub proof fn law_what_is_put_at_a_path_is_found_there(
    tree: TomlView,
    path: Seq<StepView>,
    value: TomlView,
)
    ensures
        tree.at(path) is Some ==> tree.replaced(path, value).at(path) == Some(value),
        tree.at(path) is None ==> tree.replaced(path, value) == tree,
    decreases path.len(),
{
    if path.len() > 0 {
        if let Some(inner) = tree.step(path[0]) {
            let rest = path.drop_first();
            law_what_is_put_at_a_path_is_found_there(inner, rest, value);
            lemma_stepped(tree, path[0], inner.replaced(rest, value), path[0]);
            if inner.at(rest) is None {
                lemma_step_same(tree, path[0], inner);
            }
        }
    }
}

/// A path is followed step by step.
pub proof fn law_a_path_is_followed_step_by_step(
    tree: TomlView,
    step: StepView,
    rest: Seq<StepView>,
)
    ensures
        tree.at(Seq::empty()) == Some(tree),
        tree.at(seq![step] + rest) == (match tree.step(step) {
            Some(inner) => inner.at(rest),
            None => None,
        }),
{
    let path = seq![step] + rest;
    assert(path[0] == step);
    assert(path.drop_first() =~= rest);
}

/// A key that is taken out is gone, its neighbours stay, and one that is put in is there in place of
/// the one that had its name.
pub proof fn law_a_key_is_taken_out_and_put_in_alone(
    tree: TomlView,
    name: Seq<char>,
    value: TomlView,
    other: Seq<char>,
)
    requires
        tree is Table,
        distinct(tree->Table_0),
        other != name,
    ensures
        tree.removed(seq![StepView::Key(name)]).get(name) is None,
        tree.removed(seq![StepView::Key(name)]).get(other) == tree.get(other),
        tree.with_entry(name, value).get(name) == Some(value),
        tree.with_entry(name, value).get(other) == tree.get(other),
{
    assert(seq![StepView::Key(name)][0] == StepView::Key(name));
    lemma_without(tree, name, other);
    lemma_without_gone(tree, name);
    lemma_with_entry(tree, name, value, name);
    lemma_with_entry(tree, name, value, other);
}

/// What JSON says is said in TOML as it is: texts, flags and numbers as they are, lists item by item
/// and objects entry by entry, in their order.
pub proof fn law_a_tree_is_said_in_toml_as_it_is(tree: JsonView)
    ensures
        tree matches JsonView::Text(text) ==> toml_of(tree) == TomlView::Text(text),
        tree matches JsonView::Bool(flag) ==> toml_of(tree) == TomlView::Bool(flag),
        tree matches JsonView::Int(n) ==> toml_of(tree) == TomlView::Int(n),
        tree matches JsonView::List(items) ==> {
            &&& toml_of(tree) matches TomlView::List(said)
            &&& said.len() == items.len()
            &&& forall|i: int| 0 <= i < items.len() ==> #[trigger] said[i] == toml_of(items[i])
        },
        tree matches JsonView::Object(entries) ==> {
            &&& toml_of(tree) matches TomlView::Table(said)
            &&& said.len() == entries.len()
            &&& forall|i: int|
                0 <= i < entries.len() ==> #[trigger] said[i] == (
                    entries[i].0,
                    toml_of(entries[i].1),
                )
        },
{
}

} // verus!
