//! JSON as a tree of plain values.
//!
//! Everything that reads a payload reads this tree, so what it does can be stated for every tree
//! there is. Turning text into a tree is `serde_json`'s work.

use vstd::prelude::*;

use crate::text::{copy, same};

verus! {

/// A JSON value.
///
/// A number is whole or it is not: a whole one is held as an integer, any other as the text
/// `serde_json` writes for it.
#[derive(Debug, PartialEq)]
pub enum Json {
    Null,
    Bool(bool),
    Unsigned(u64),
    Negative(i64),
    Float(String),
    Text(String),
    List(Vec<Json>),
    Object(Vec<(String, Json)>),
}

/// What a JSON value says.
#[verifier::ext_equal]
pub enum JsonView {
    Null,
    Bool(bool),
    Int(int),
    Float(Seq<char>),
    Text(Seq<char>),
    List(Seq<JsonView>),
    Object(Seq<(Seq<char>, JsonView)>),
}

impl JsonView {
    /// The first position of a key in an object's entries, counted from `from`.
    pub open spec fn position(
        entries: Seq<(Seq<char>, JsonView)>,
        key: Seq<char>,
        from: int,
    ) -> Option<int>
        decreases entries.len() - from,
    {
        if from < 0 || from >= entries.len() {
            None
        } else if entries[from].0 == key {
            Some(from)
        } else {
            JsonView::position(entries, key, from + 1)
        }
    }

    /// What an object holds under a key; nothing for anything that is not an object.
    pub open spec fn get(self, key: Seq<char>) -> Option<JsonView> {
        match self {
            JsonView::Object(entries) => match JsonView::position(entries, key, 0) {
                Some(i) => Some(entries[i].1),
                None => None,
            },
            _ => None,
        }
    }

    /// What stands under one key inside what stands under another.
    pub open spec fn get_in(self, outer: Seq<char>, inner: Seq<char>) -> Option<JsonView> {
        match self.get(outer) {
            Some(node) => node.get(inner),
            None => None,
        }
    }

    /// The first element of a list.
    pub open spec fn first(self) -> Option<JsonView> {
        match self {
            JsonView::List(items) => if items.len() > 0 {
                Some(items[0])
            } else {
                None
            },
            _ => None,
        }
    }

    pub open spec fn text(self) -> Option<Seq<char>> {
        match self {
            JsonView::Text(text) => Some(text),
            _ => None,
        }
    }

    /// A whole number that fits a `u64`.
    pub open spec fn count(self) -> Option<u64> {
        match self {
            JsonView::Int(n) => if 0 <= n <= u64::MAX {
                Some(n as u64)
            } else {
                None
            },
            _ => None,
        }
    }

    pub open spec fn items(self) -> Option<Seq<JsonView>> {
        match self {
            JsonView::List(items) => Some(items),
            _ => None,
        }
    }
}

/// A list of fields with their names, in order; anything else, and a list that is too long, as it is.
pub open spec fn named(value: JsonView, names: Seq<Seq<char>>) -> JsonView {
    match value {
        JsonView::List(items) => if items.len() <= names.len() {
            JsonView::Object(Seq::new(items.len(), |i: int| (names[i], items[i])))
        } else {
            value
        },
        _ => value,
    }
}

/// The texts of some names.
pub open spec fn name_views(names: Seq<&str>) -> Seq<Seq<char>> {
    Seq::new(names.len(), |i: int| names[i]@)
}

/// The text under a key.
pub open spec fn text_at(node: JsonView, key: Seq<char>) -> Option<Seq<char>> {
    match node.get(key) {
        Some(inner) => inner.text(),
        None => None,
    }
}

/// The whole number under a key.
pub open spec fn count_at(node: JsonView, key: Seq<char>) -> Option<u64> {
    match node.get(key) {
        Some(inner) => inner.count(),
        None => None,
    }
}

/// The text under a key that may be missing: nothing when it is missing or null, and no answer at
/// all when something else stands there.
pub open spec fn maybe_text_at(node: JsonView, key: Seq<char>) -> Option<Option<Seq<char>>> {
    match node.get(key) {
        None => Some(None),
        Some(JsonView::Null) => Some(None),
        Some(JsonView::Text(text)) => Some(Some(text)),
        Some(_) => None,
    }
}

impl Json {
    pub open spec fn tree(self) -> JsonView
        decreases self,
    {
        match self {
            Json::Null => JsonView::Null,
            Json::Bool(b) => JsonView::Bool(b),
            Json::Unsigned(n) => JsonView::Int(n as int),
            Json::Negative(n) => JsonView::Int(n as int),
            Json::Float(text) => JsonView::Float(text@),
            Json::Text(text) => JsonView::Text(text@),
            Json::List(items) => JsonView::List(
                Seq::new(
                    items@.len(),
                    |i: int|
                        if 0 <= i < items@.len() {
                            items@[i].tree()
                        } else {
                            JsonView::Null
                        },
                ),
            ),
            Json::Object(entries) => JsonView::Object(
                Seq::new(
                    entries@.len(),
                    |i: int|
                        if 0 <= i < entries@.len() {
                            (entries@[i].0@, entries@[i].1.tree())
                        } else {
                            (Seq::empty(), JsonView::Null)
                        },
                ),
            ),
        }
    }

    /// What an object holds under a key.
    pub fn get(&self, key: &str) -> (out: Option<&Json>)
        ensures
            match out {
                Some(inner) => self@.get(key@) == Some(inner@),
                None => self@.get(key@) is None,
            },
    {
        match self {
            Json::Object(entries) => {
                let ghost all = self@->Object_0;
                let mut i: usize = 0;
                while i < entries.len()
                    invariant
                        self@ == JsonView::Object(all),
                        all.len() == entries@.len(),
                        forall|k: int|
                            0 <= k < entries@.len() ==> #[trigger] all[k] == (
                                entries@[k].0@,
                                entries@[k].1@,
                            ),
                        i <= entries@.len(),
                        JsonView::position(all, key@, 0) == JsonView::position(all, key@, i as int),
                    decreases entries@.len() - i,
                {
                    assert(all[i as int] == (entries@[i as int].0@, entries@[i as int].1@));
                    if same(&entries[i].0, key) {
                        return Some(&entries[i].1);
                    }
                    i += 1;
                }
                None
            },
            _ => None,
        }
    }

    /// The first element of a list.
    pub fn first(&self) -> (out: Option<&Json>)
        ensures
            match out {
                Some(inner) => self@.first() == Some(inner@),
                None => self@.first() is None,
            },
    {
        match self {
            Json::List(items) => if items.len() > 0 {
                Some(&items[0])
            } else {
                None
            },
            _ => None,
        }
    }

    pub fn is_null(&self) -> (out: bool)
        ensures
            out == (self@ is Null),
    {
        match self {
            Json::Null => true,
            _ => false,
        }
    }

    pub fn as_text(&self) -> (out: Option<&String>)
        ensures
            match out {
                Some(text) => self@.text() == Some(text@),
                None => self@.text() is None,
            },
    {
        match self {
            Json::Text(text) => Some(text),
            _ => None,
        }
    }

    /// A whole number that fits a `u64`.
    pub fn as_count(&self) -> (out: Option<u64>)
        ensures
            out == self@.count(),
    {
        match self {
            Json::Unsigned(n) => Some(*n),
            Json::Negative(n) => if *n >= 0 {
                Some(*n as u64)
            } else {
                None
            },
            _ => None,
        }
    }

    /// The text under a key.
    pub fn text_under(&self, key: &str) -> (out: Option<String>)
        ensures
            crate::text::opt_view(out) == text_at(self@, key@),
    {
        match self.get(key) {
            Some(inner) => match inner.as_text() {
                Some(text) => Some(copy(text)),
                None => None,
            },
            None => None,
        }
    }

    /// The text under a key that may be missing.
    pub fn maybe_text_under(&self, key: &str) -> (out: Option<Option<String>>)
        ensures
            match out {
                Some(text) => maybe_text_at(self@, key@) == Some(crate::text::opt_view(text)),
                None => maybe_text_at(self@, key@) is None,
            },
    {
        match self.get(key) {
            None => Some(None),
            Some(Json::Null) => Some(None),
            Some(Json::Text(text)) => Some(Some(copy(text))),
            Some(_) => None,
        }
    }

    /// The whole number under a key.
    pub fn count_under(&self, key: &str) -> (out: Option<u64>)
        ensures
            out == count_at(self@, key@),
    {
        match self.get(key) {
            Some(inner) => inner.as_count(),
            None => None,
        }
    }

    /// A list of fields with their names, where this is one.
    pub fn named(&self, names: &Vec<&str>) -> (out: Option<Json>)
        ensures
            match out {
                Some(value) => value@ == named(self@, name_views(names@)),
                None => self@ == named(self@, name_views(names@)),
            },
    {
        match self {
            Json::List(items) => {
                if items.len() > names.len() {
                    return None;
                }
                let ghost want = named(self@, name_views(names@))->Object_0;
                let mut entries = no_entries();
                let mut i: usize = 0;
                assert(want.take(0) =~= Seq::<(Seq<char>, JsonView)>::empty());
                while i < items.len()
                    invariant
                        *self == Json::List(*items),
                        i <= items@.len() <= names@.len(),
                        want == named(self@, name_views(names@))->Object_0,
                        entry_views(entries@) == want.take(i as int),
                    decreases items@.len() - i,
                {
                    assert(self@->List_0[i as int] == items@[i as int]@);
                    assert(want.take(i + 1) =~= want.take(i as int).push(
                        (names@[i as int]@, items@[i as int]@),
                    ));
                    put(&mut entries, names[i], items[i].duplicate());
                    i += 1;
                }
                assert(want.take(want.len() as int) =~= want);
                Some(object(entries))
            },
            _ => None,
        }
    }

    /// A value that says the same.
    pub fn duplicate(&self) -> (out: Json)
        ensures
            out@ == self@,
        decreases self,
    {
        match self {
            Json::Null => Json::Null,
            Json::Bool(b) => Json::Bool(*b),
            Json::Unsigned(n) => Json::Unsigned(*n),
            Json::Negative(n) => Json::Negative(*n),
            Json::Float(text) => Json::Float(copy(text)),
            Json::Text(text) => Json::Text(copy(text)),
            Json::List(items) => {
                let mut list: Vec<Json> = Vec::new();
                let mut i: usize = 0;
                while i < items.len()
                    invariant
                        *self == Json::List(*items),
                        i <= items@.len(),
                        list@.len() == i,
                        forall|k: int| 0 <= k < i ==> (#[trigger] list@[k])@ == items@[k]@,
                    decreases items@.len() - i,
                {
                    assert(decreases_to!(*self => self->List_0@[i as int]));
                    list.push(items[i].duplicate());
                    i += 1;
                }
                let out = Json::List(list);
                assert(out@->List_0 =~= self@->List_0) by {
                    assert forall|k: int| 0 <= k < items@.len() implies out@->List_0[k]
                        == self@->List_0[k] by {
                        assert(list@[k]@ == items@[k]@);
                    }
                }
                out
            },
            Json::Object(entries) => {
                let mut list: Vec<(String, Json)> = Vec::new();
                let mut i: usize = 0;
                while i < entries.len()
                    invariant
                        *self == Json::Object(*entries),
                        i <= entries@.len(),
                        list@.len() == i,
                        forall|k: int|
                            0 <= k < i ==> (#[trigger] list@[k]).0@ == entries@[k].0@ && list@[k].1@
                                == entries@[k].1@,
                    decreases entries@.len() - i,
                {
                    assert(decreases_to!(*self => self->Object_0@[i as int].1));
                    list.push((copy(&entries[i].0), entries[i].1.duplicate()));
                    i += 1;
                }
                let out = Json::Object(list);
                assert(out@->Object_0 =~= self@->Object_0) by {
                    assert forall|k: int| 0 <= k < entries@.len() implies out@->Object_0[k]
                        == self@->Object_0[k] by {
                        assert(list@[k].0@ == entries@[k].0@);
                    }
                }
                out
            },
        }
    }
}

impl View for Json {
    type V = JsonView;

    open spec fn view(&self) -> JsonView {
        self.tree()
    }
}

// ---------------------------------------------------------------------------------------------
// Building values

/// The entries of an object, as it says them.
pub open spec fn entry_views(entries: Seq<(String, Json)>) -> Seq<(Seq<char>, JsonView)> {
    Seq::new(entries.len(), |i: int| (entries[i].0@, entries[i].1@))
}

/// The items of a list, as it says them.
pub open spec fn item_views(items: Seq<Json>) -> Seq<JsonView> {
    Seq::new(items.len(), |i: int| items[i]@)
}

/// Adds an entry to an object under construction.
pub fn put(entries: &mut Vec<(String, Json)>, key: &str, value: Json)
    ensures
        entry_views(final(entries)@) == entry_views(old(entries)@).push((key@, value@)),
{
    entries.push((copy(key), value));
    assert(entry_views(entries@) =~= entry_views(old(entries)@).push((key@, value@)));
}

/// An object under construction, with nothing in it yet.
pub fn no_entries() -> (out: Vec<(String, Json)>)
    ensures
        entry_views(out@) == Seq::<(Seq<char>, JsonView)>::empty(),
{
    let out: Vec<(String, Json)> = Vec::new();
    assert(entry_views(out@) =~= Seq::<(Seq<char>, JsonView)>::empty());
    out
}

pub fn object(entries: Vec<(String, Json)>) -> (out: Json)
    ensures
        out@ == JsonView::Object(entry_views(entries@)),
{
    let out = Json::Object(entries);
    assert(out@->Object_0 =~= entry_views(entries@));
    out
}

pub fn list(items: Vec<Json>) -> (out: Json)
    ensures
        out@ == JsonView::List(item_views(items@)),
{
    let out = Json::List(items);
    assert(out@->List_0 =~= item_views(items@));
    out
}

pub fn text(words: &str) -> (out: Json)
    ensures
        out@ == JsonView::Text(words@),
{
    Json::Text(copy(words))
}

/// No entry has this key.
pub open spec fn lacks(entries: Seq<(Seq<char>, JsonView)>, key: Seq<char>) -> bool {
    forall|i: int| 0 <= i < entries.len() ==> (#[trigger] entries[i]).0 != key
}

proof fn lemma_position(entries: Seq<(Seq<char>, JsonView)>, key: Seq<char>, from: int)
    requires
        0 <= from,
    ensures
        match JsonView::position(entries, key, from) {
            Some(i) => from <= i < entries.len() && entries[i].0 == key && forall|j: int|
                from <= j < i ==> (#[trigger] entries[j]).0 != key,
            None => forall|j: int| from <= j < entries.len() ==> (#[trigger] entries[j]).0 != key,
        },
    decreases entries.len() - from,
{
    if from < entries.len() && entries[from].0 != key {
        lemma_position(entries, key, from + 1);
    }
}

/// What stands under a key in entries put together.
pub proof fn lemma_get_add(
    a: Seq<(Seq<char>, JsonView)>,
    b: Seq<(Seq<char>, JsonView)>,
    key: Seq<char>,
)
    ensures
        JsonView::Object(a + b).get(key) == match JsonView::Object(a).get(key) {
            Some(value) => Some(value),
            None => JsonView::Object(b).get(key),
        },
{
    lemma_position(a, key, 0);
    lemma_position(b, key, 0);
    lemma_position(a + b, key, 0);
    let ab = a + b;
    match JsonView::position(a, key, 0) {
        Some(i) => {
            assert(ab[i] == a[i]);
            let k = JsonView::position(ab, key, 0)->0;
            if k < i {
                assert(ab[k] == a[k]);
            }
        },
        None => {
            match JsonView::position(b, key, 0) {
                Some(j) => {
                    assert(ab[a.len() + j] == b[j]);
                    let k = JsonView::position(ab, key, 0)->0;
                    if k < a.len() {
                        assert(ab[k] == a[k]);
                    } else {
                        assert(ab[k] == b[k - a.len()]);
                    }
                },
                None => {
                    match JsonView::position(ab, key, 0) {
                        Some(k) => {
                            if k < a.len() {
                                assert(ab[k] == a[k]);
                            } else {
                                assert(ab[k] == b[k - a.len()]);
                            }
                        },
                        None => {},
                    }
                },
            }
        },
    }
}

/// What stands under a key in a single entry, and in none.
pub proof fn lemma_get_one(key: Seq<char>, value: JsonView, wanted: Seq<char>)
    ensures
        JsonView::Object(seq![(key, value)]).get(wanted) == if key == wanted {
            Some(value)
        } else {
            None
        },
        JsonView::Object(Seq::empty()).get(wanted) is None,
{
    lemma_position(seq![(key, value)], wanted, 0);
    let one = seq![(key, value)];
    assert(one[0] == (key, value));
}

/// Nothing stands under a key that no entry has.
pub proof fn lemma_absent(entries: Seq<(Seq<char>, JsonView)>, key: Seq<char>)
    requires
        lacks(entries, key),
    ensures
        JsonView::Object(entries).get(key) is None,
{
    lemma_position(entries, key, 0);
}

/// What is plain is plain where more nesting is allowed.
pub proof fn lemma_plain_more(tree: JsonView, depth: nat, more: nat)
    requires
        plain(tree, depth),
        depth <= more,
    ensures
        plain(tree, more),
    decreases tree,
{
    match tree {
        JsonView::List(items) => {
            assert forall|i: int| 0 <= i < items.len() implies plain(
                #[trigger] items[i],
                (more - 1) as nat,
            ) by {
                lemma_plain_item(items, depth, i);
                assert(decreases_to!(tree => tree->List_0[i]));
                lemma_plain_more(items[i], (depth - 1) as nat, (more - 1) as nat);
            }
        },
        JsonView::Object(entries) => {
            assert forall|i: int| 0 <= i < entries.len() implies plain(
                (#[trigger] entries[i]).1,
                (more - 1) as nat,
            ) by {
                assert(decreases_to!(tree => tree->Object_0[i].1));
                lemma_plain_more(entries[i].1, (depth - 1) as nat, (more - 1) as nat);
            }
        },
        _ => {},
    }
}

/// Entries that differ in their keys, put together.
pub proof fn lemma_distinct_add(a: Seq<(Seq<char>, JsonView)>, b: Seq<(Seq<char>, JsonView)>)
    requires
        distinct_keys(a),
        distinct_keys(b),
        forall|j: int| 0 <= j < b.len() ==> lacks(a, (#[trigger] b[j]).0),
    ensures
        distinct_keys(a + b),
{
    let ab = a + b;
    assert forall|i: int, j: int| 0 <= i < j < ab.len() implies (#[trigger] ab[i]).0 != (
    #[trigger] ab[j]).0 by {
        if j < a.len() {
            assert(ab[i] == a[i] && ab[j] == a[j]);
        } else if i < a.len() {
            assert(ab[i] == a[i] && ab[j] == b[j - a.len()]);
            assert(lacks(a, b[j - a.len()].0));
        } else {
            assert(ab[i] == b[i - a.len()] && ab[j] == b[j - a.len()]);
        }
    }
}

/// A key that neither of two lists of entries has.
pub proof fn lemma_lacks_add(
    a: Seq<(Seq<char>, JsonView)>,
    b: Seq<(Seq<char>, JsonView)>,
    key: Seq<char>,
)
    requires
        lacks(a, key),
        lacks(b, key),
    ensures
        lacks(a + b, key),
{
    let ab = a + b;
    assert forall|i: int| 0 <= i < ab.len() implies (#[trigger] ab[i]).0 != key by {
        if i < a.len() {
            assert(ab[i] == a[i]);
        } else {
            assert(ab[i] == b[i - a.len()]);
        }
    }
}

// ---------------------------------------------------------------------------------------------
// Reading text

/// Trusted: `serde_json::Value`, a parsed document.
#[verifier::external_type_specification]
#[verifier::external_body]
pub struct ExValue(serde_json::Value);

/// What a `serde_json::Value` holds.
pub uninterp spec fn json_tree(value: serde_json::Value) -> JsonView;

/// What `serde_json::from_str` makes of a text: the document, or the text of its error.
pub uninterp spec fn json_parse(text: Seq<char>) -> Result<JsonView, Seq<char>>;

/// One level of a `serde_json::Value`.
pub enum Node {
    Null,
    Bool(bool),
    Unsigned(u64),
    Negative(i64),
    Float(String),
    Text(String),
    List(Vec<serde_json::Value>),
    Object(Vec<(String, serde_json::Value)>),
}

impl View for Node {
    type V = JsonView;

    open spec fn view(&self) -> JsonView {
        match *self {
            Node::Null => JsonView::Null,
            Node::Bool(b) => JsonView::Bool(b),
            Node::Unsigned(n) => JsonView::Int(n as int),
            Node::Negative(n) => JsonView::Int(n as int),
            Node::Float(text) => JsonView::Float(text@),
            Node::Text(text) => JsonView::Text(text@),
            Node::List(items) => JsonView::List(
                Seq::new(items@.len(), |i: int| json_tree(items@[i])),
            ),
            Node::Object(entries) => JsonView::Object(
                Seq::new(entries@.len(), |i: int| (entries@[i].0@, json_tree(entries@[i].1))),
            ),
        }
    }
}

/// Trusted: `serde_json::from_str::<serde_json::Value>`. A text is a document or it is not, and
/// which of the two, the document, and what the error says when it is written out (`to_string`)
/// depend on the text alone.
#[verifier::external_body]
fn read_value(text: &str) -> (out: Result<serde_json::Value, String>)
    ensures
        match out {
            Ok(value) => json_parse(text@) == Ok::<JsonView, Seq<char>>(json_tree(value)),
            Err(error) => json_parse(text@) == Err::<JsonView, Seq<char>>(error@),
        },
{
    serde_json::from_str::<serde_json::Value>(text).map_err(|error| error.to_string())
}

/// Trusted: the variants of `serde_json::Value`, with `Number::as_u64`, `Number::as_i64` and
/// `Map::into_iter`. Taking one level off a value gives what it holds: the entries of an array and
/// of an object come out in the order `serde_json` keeps them, each with its own contents.
#[verifier::external_body]
fn open_value(value: serde_json::Value) -> (out: Node)
    ensures
        out@ == json_tree(value),
{
    match value {
        serde_json::Value::Null => Node::Null,
        serde_json::Value::Bool(b) => Node::Bool(b),
        serde_json::Value::Number(n) => match (n.as_u64(), n.as_i64()) {
            (Some(n), _) => Node::Unsigned(n),
            (None, Some(n)) => Node::Negative(n),
            (None, None) => Node::Float(n.to_string()),
        },
        serde_json::Value::String(text) => Node::Text(text),
        serde_json::Value::Array(items) => Node::List(items),
        serde_json::Value::Object(map) => Node::Object(map.into_iter().collect()),
    }
}

/// The whole of a `serde_json::Value`.
fn close_value(value: serde_json::Value) -> (out: Json)
    ensures
        out@ == json_tree(value),
    decreases json_tree(value),
{
    match open_value(value) {
        Node::Null => Json::Null,
        Node::Bool(b) => Json::Bool(b),
        Node::Unsigned(n) => Json::Unsigned(n),
        Node::Negative(n) => Json::Negative(n),
        Node::Float(text) => Json::Float(text),
        Node::Text(text) => Json::Text(text),
        Node::List(items) => {
            let ghost want = json_tree(value)->List_0;
            let mut list: Vec<Json> = Vec::new();
            let ghost all = items@;
            for item in iter: items
                invariant
                    iter.seq() == all,
                    json_tree(value) == JsonView::List(want),
                    want.len() == all.len(),
                    forall|k: int| 0 <= k < all.len() ==> #[trigger] want[k] == json_tree(all[k]),
                    list@.len() == iter.index(),
                    forall|k: int| 0 <= k < list@.len() ==> (#[trigger] list@[k])@ == want[k],
            {
                assert(want[list@.len() as int] == json_tree(item));
                assert(decreases_to!(json_tree(value) => json_tree(value)->List_0[list@.len() as int]));
                list.push(close_value(item));
            }
            let out = Json::List(list);
            assert(out@->List_0 =~= want);
            out
        },
        Node::Object(entries) => {
            let ghost want = json_tree(value)->Object_0;
            let mut list: Vec<(String, Json)> = Vec::new();
            let ghost all = entries@;
            for entry in iter: entries
                invariant
                    iter.seq() == all,
                    json_tree(value) == JsonView::Object(want),
                    want.len() == all.len(),
                    forall|k: int|
                        0 <= k < all.len() ==> #[trigger] want[k] == (
                            all[k].0@,
                            json_tree(all[k].1),
                        ),
                    list@.len() == iter.index(),
                    forall|k: int|
                        0 <= k < list@.len() ==> (#[trigger] list@[k]).0@ == want[k].0
                            && list@[k].1@ == want[k].1,
            {
                assert(want[list@.len() as int] == (entry.0@, json_tree(entry.1)));
                assert(decreases_to!(json_tree(value) => json_tree(value)->Object_0[list@.len() as int].1));
                list.push((entry.0, close_value(entry.1)));
            }
            let out = Json::Object(list);
            assert(out@->Object_0 =~= want) by {
                assert forall|k: int| 0 <= k < want.len() implies out@->Object_0[k] == want[k] by {
                    assert(list@[k].0@ == want[k].0);
                }
            }
            out
        },
    }
}

/// Trusted: the variants of `serde_json::Value`, with `Map::from_iter`. A value made of one level
/// holds what the level says. The keys of an object have to differ, because a map keeps one value
/// for each; numbers that are not whole are left out.
#[verifier::external_body]
fn make_value(node: Node) -> (out: serde_json::Value)
    requires
        node !is Float,
        node@ matches JsonView::Object(entries) ==> distinct_keys(entries),
    ensures
        json_tree(out) == node@,
{
    match node {
        Node::Null => serde_json::Value::Null,
        Node::Bool(b) => serde_json::Value::Bool(b),
        Node::Unsigned(n) => serde_json::Value::Number(n.into()),
        Node::Negative(n) => serde_json::Value::Number(n.into()),
        Node::Float(text) | Node::Text(text) => serde_json::Value::String(text),
        Node::List(items) => serde_json::Value::Array(items),
        Node::Object(entries) => serde_json::Value::Object(entries.into_iter().collect()),
    }
}

/// What `serde_json::to_string` writes for a document.
pub uninterp spec fn json_text(tree: JsonView) -> Seq<char>;

/// Trusted: `serde_json::to_string` of a `serde_json::Value`, which does not fail: a value has
/// nothing in it that cannot be written. The text depends on what the value holds alone. Control
/// characters are escaped, so it is one line; an object's begins with a brace; and reading it gives
/// the same document back, as long as every number in it is whole, no object has a key twice and it
/// is not nested deeper than a reader goes.
#[verifier::external_body]
fn write_value(value: &serde_json::Value) -> (out: String)
    ensures
        out@ == json_text(json_tree(*value)),
        !out@.contains('\n') && !out@.contains('\r'),
        json_tree(*value) is Object ==> out@.len() > 0 && out@[0] == '{',
        plain(json_tree(*value), READ_DEPTH as nat) ==> (match json_parse(out@) {
            Ok(tree) => tree == json_tree(*value),
            Err(_) => false,
        }),
{
    serde_json::to_string(value).unwrap_or_default()
}

/// How deep a document may be nested to be read back.
pub const READ_DEPTH: usize = 100;

/// No key stands twice.
pub open spec fn distinct_keys(entries: Seq<(Seq<char>, JsonView)>) -> bool {
    forall|i: int, j: int|
        0 <= i < j < entries.len() ==> (#[trigger] entries[i]).0 != (#[trigger] entries[j]).0
}

/// Whether every number is whole, no object has a key twice, and nothing is nested deeper than
/// `depth`.
pub open spec fn plain(tree: JsonView, depth: nat) -> bool
    decreases tree,
{
    match tree {
        JsonView::Float(_) => false,
        JsonView::List(items) => {
            &&& depth > 0
            &&& forall|i: int|
                #![trigger items[i]]
                0 <= i < items.len() ==> plain(items[i], (depth - 1) as nat)
        },
        JsonView::Object(entries) => {
            &&& depth > 0
            &&& distinct_keys(entries)
            &&& forall|i: int|
                0 <= i < entries.len() ==> plain((#[trigger] entries[i]).1, (depth - 1) as nat)
        },
        _ => true,
    }
}

proof fn lemma_plain_item(items: Seq<JsonView>, depth: nat, i: int)
    requires
        plain(JsonView::List(items), depth),
        0 <= i < items.len(),
    ensures
        depth > 0,
        plain(items[i], (depth - 1) as nat),
{
    let tree = JsonView::List(items);
    assert(tree->List_0 == items);
    let x = tree->List_0[i];
    assert(plain(tree, depth));
    assert(plain(x, (depth - 1) as nat));
}

/// The `serde_json::Value` that says what a value says.
pub(crate) fn value_of(json: &Json) -> (out: serde_json::Value)
    requires
        exists|depth: nat| #[trigger] plain(json@, depth),
    ensures
        json_tree(out) == json@,
    decreases json,
{
    let ghost depth = choose|depth: nat| #[trigger] plain(json@, depth);
    match json {
        Json::Null => make_value(Node::Null),
        Json::Bool(b) => make_value(Node::Bool(*b)),
        Json::Unsigned(n) => make_value(Node::Unsigned(*n)),
        Json::Negative(n) => make_value(Node::Negative(*n)),
        Json::Float(_) => make_value(Node::Null),
        Json::Text(text) => make_value(Node::Text(copy(text))),
        Json::List(items) => {
            let ghost want = json@->List_0;
            let mut list: Vec<serde_json::Value> = Vec::new();
            let mut i: usize = 0;
            while i < items.len()
                invariant
                    *json == Json::List(*items),
                    json@ == JsonView::List(want),
                    plain(json@, depth),
                    i <= items@.len(),
                    list@.len() == i,
                    forall|k: int| 0 <= k < i ==> json_tree(#[trigger] list@[k]) == want[k],
                decreases items@.len() - i,
            {
                assert(want[i as int] == items@[i as int]@);
                proof {
                    lemma_plain_item(want, depth, i as int);
                }
                assert(decreases_to!(*json => json->List_0@[i as int]));
                list.push(value_of(&items[i]));
                i += 1;
            }
            let node = Node::List(list);
            assert(node@->List_0 =~= want);
            make_value(node)
        },
        Json::Object(entries) => {
            let ghost want = json@->Object_0;
            let mut list: Vec<(String, serde_json::Value)> = Vec::new();
            let mut i: usize = 0;
            while i < entries.len()
                invariant
                    *json == Json::Object(*entries),
                    json@ == JsonView::Object(want),
                    plain(json@, depth),
                    i <= entries@.len(),
                    list@.len() == i,
                    forall|k: int|
                        0 <= k < i ==> (#[trigger] list@[k]).0@ == want[k].0 && json_tree(
                            list@[k].1,
                        ) == want[k].1,
                decreases entries@.len() - i,
            {
                assert(want[i as int] == (entries@[i as int].0@, entries@[i as int].1@));
                assert(plain(want[i as int].1, (depth - 1) as nat));
                assert(decreases_to!(*json => json->Object_0@[i as int].1));
                list.push((copy(&entries[i].0), value_of(&entries[i].1)));
                i += 1;
            }
            let node = Node::Object(list);
            assert(node@->Object_0 =~= want) by {
                assert forall|k: int| 0 <= k < want.len() implies node@->Object_0[k] == want[k] by {
                    assert(list@[k].0@ == want[k].0);
                }
            }
            make_value(node)
        },
    }
}

/// Writes a value as one line of JSON.
pub fn write_json(json: &Json) -> (out: String)
    requires
        plain(json@, READ_DEPTH as nat),
    ensures
        out@ == json_text(json@),
        !out@.contains('\n') && !out@.contains('\r'),
        json@ is Object ==> out@.len() > 0 && out@[0] == '{',
        json_parse(out@) == Ok::<JsonView, Seq<char>>(json@),
{
    write_value(&value_of(json))
}

/// Reads a text as JSON; the error is what `serde_json` says is wrong with it.
pub fn parse_json(text: &str) -> (out: Result<Json, String>)
    ensures
        match out {
            Ok(value) => json_parse(text@) == Ok::<JsonView, Seq<char>>(value@),
            Err(error) => json_parse(text@) == Err::<JsonView, Seq<char>>(error@),
        },
{
    match read_value(text) {
        Ok(value) => Ok(close_value(value)),
        Err(error) => Err(error),
    }
}

// ---------------------------------------------------------------------------------------------
// Laws

/// An object holds under a key what its first entry of that name says, and nothing under a name that
/// no entry has; what is no object holds nothing under any.
pub proof fn law_an_object_holds_what_its_entries_say(
    entries: Seq<(Seq<char>, JsonView)>,
    key: Seq<char>,
    i: int,
    other: JsonView,
)
    ensures
        0 <= i < entries.len() && entries[i].0 == key && (forall|j: int|
            0 <= j < i ==> (#[trigger] entries[j]).0 != key) ==> JsonView::Object(entries).get(key)
            == Some(entries[i].1),
        (forall|j: int| 0 <= j < entries.len() ==> (#[trigger] entries[j]).0 != key)
            ==> JsonView::Object(entries).get(key) is None,
        !(other is Object) ==> other.get(key) is None,
{
    lemma_position(entries, key, 0);
}

/// What stands under a key is read as what it is: a text as a text, a whole number as a count where it
/// fits, and nothing else as either. A text that may be missing is also read from a null.
pub proof fn law_a_value_is_read_as_what_it_is(
    node: JsonView,
    key: Seq<char>,
    text: Seq<char>,
    n: u64,
)
    ensures
        text_at(node, key) == Some(text) <==> node.get(key) == Some(JsonView::Text(text)),
        count_at(node, key) == Some(n) <==> node.get(key) == Some(JsonView::Int(n as int)),
        maybe_text_at(node, key) == Some(Some(text)) <==> node.get(key) == Some(
            JsonView::Text(text),
        ),
        maybe_text_at(node, key) == Some(None::<Seq<char>>) <==> node.get(key) is None || node.get(
            key,
        ) == Some(JsonView::Null),
{
}

/// A list has a first element when it has any, and nothing else has one.
pub proof fn law_only_a_list_has_a_first_element(value: JsonView)
    ensures
        match value {
            JsonView::List(items) => value.items() == Some(items) && (items.len() > 0
                ==> value.first() == Some(items[0])) && (items.len() == 0 ==> value.first() is None),
            _ => value.first() is None && value.items() is None,
        },
{
}

/// A list of fields gets their names one by one, in order, as far as it goes; a longer list, and what
/// is no list, is left as it is.
pub proof fn law_fields_get_their_names_in_order(
    items: Seq<JsonView>,
    names: Seq<Seq<char>>,
    other: JsonView,
)
    ensures
        items.len() <= names.len() ==> {
            &&& named(JsonView::List(items), names) matches JsonView::Object(entries)
            &&& entries.len() == items.len()
            &&& forall|i: int|
                0 <= i < items.len() ==> #[trigger] entries[i] == (names[i], items[i])
        },
        items.len() > names.len() ==> named(JsonView::List(items), names) == JsonView::List(items),
        !(other is List) ==> named(other, names) == other,
{
}

} // verus!
