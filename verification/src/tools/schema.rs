//! What the model is told a tool may be passed: JSON schemas, built from a few shapes.

use vstd::prelude::*;

use crate::json::{entry_views, item_views, list, no_entries, object, put, text, Json, JsonView};

verus! {

/// A parameter of a kind, with what it is for.
pub open spec fn property(kind: Seq<char>, description: Seq<char>) -> JsonView {
    JsonView::Object(
        seq![("type"@, JsonView::Text(kind)), ("description"@, JsonView::Text(description))],
    )
}

/// A whole number that is at least one.
pub open spec fn counting_property(description: Seq<char>) -> JsonView {
    JsonView::Object(
        seq![
            ("type"@, JsonView::Text("integer"@)),
            ("minimum"@, JsonView::Int(1)),
            ("description"@, JsonView::Text(description)),
        ],
    )
}

/// Names, as a list of texts.
pub open spec fn names(words: Seq<Seq<char>>) -> JsonView {
    JsonView::List(Seq::new(words.len(), |i: int| JsonView::Text(words[i])))
}

/// An object with these parameters, of which some must be there.
pub open spec fn parameters(
    properties: Seq<(Seq<char>, JsonView)>,
    required: Seq<Seq<char>>,
) -> JsonView {
    JsonView::Object(
        seq![
            ("type"@, JsonView::Text("object"@)),
            ("properties"@, JsonView::Object(properties)),
            ("required"@, names(required)),
        ],
    )
}

pub fn build_property(kind: &str, description: &str) -> (out: Json)
    ensures
        out@ == property(kind@, description@),
{
    let mut entries = no_entries();
    put(&mut entries, "type", text(kind));
    put(&mut entries, "description", text(description));
    assert(entry_views(entries@) =~= property(kind@, description@)->Object_0);
    object(entries)
}

pub fn build_counting_property(description: &str) -> (out: Json)
    ensures
        out@ == counting_property(description@),
{
    let mut entries = no_entries();
    put(&mut entries, "type", text("integer"));
    put(&mut entries, "minimum", Json::Unsigned(1));
    put(&mut entries, "description", text(description));
    assert(entry_views(entries@) =~= counting_property(description@)->Object_0);
    object(entries)
}

/// Names, as a list of texts.
pub fn build_names(words: &[&str]) -> (out: Json)
    ensures
        out@ == names(Seq::new(words@.len(), |i: int| words@[i]@)),
{
    let mut items: Vec<Json> = Vec::new();
    let mut i: usize = 0;
    while i < words.len()
        invariant
            i <= words@.len(),
            items@.len() == i,
            forall|k: int| 0 <= k < i ==> (#[trigger] items@[k])@ == JsonView::Text(words@[k]@),
        decreases words@.len() - i,
    {
        items.push(text(words[i]));
        i += 1;
    }
    assert(item_views(items@) =~= names(Seq::new(words@.len(), |i: int| words@[i]@))->List_0);
    list(items)
}

pub fn build_parameters(properties: Vec<(String, Json)>, required: &[&str]) -> (out: Json)
    ensures
        out@ == parameters(
            entry_views(properties@),
            Seq::new(required@.len(), |i: int| required@[i]@),
        ),
{
    let ghost held = entry_views(properties@);
    let mut entries = no_entries();
    put(&mut entries, "type", text("object"));
    put(&mut entries, "properties", object(properties));
    put(&mut entries, "required", build_names(required));
    assert(entry_views(entries@) =~= parameters(
        held,
        Seq::new(required@.len(), |i: int| required@[i]@),
    )->Object_0);
    object(entries)
}

// ---------------------------------------------------------------------------------------------
// Laws

/// A schema is an object, with its parameters under `properties` and the names of those that must be
/// there, in their order, under `required`.
pub proof fn law_a_schema_lists_its_parameters(
    properties: Seq<(Seq<char>, JsonView)>,
    required: Seq<Seq<char>>,
)
    ensures
        parameters(properties, required).get("type"@) == Some(JsonView::Text("object"@)),
        parameters(properties, required).get("properties"@) == Some(JsonView::Object(properties)),
        parameters(properties, required).get("required"@) == Some(names(required)),
        names(required) matches JsonView::List(items) && items.len() == required.len() && forall|
            i: int,
        |
            0 <= i < items.len() ==> #[trigger] items[i] == JsonView::Text(required[i]),
{
    reveal_strlit("type");
    reveal_strlit("properties");
    reveal_strlit("required");
    assert("type"@.len() == 4 && "properties"@.len() == 10 && "required"@.len() == 8);
    reveal_with_fuel(JsonView::position, 4);
    let entries = parameters(properties, required)->Object_0;
    assert(entries[0].0 == "type"@ && entries[1].0 == "properties"@ && entries[2].0
        == "required"@);
}

/// A parameter says what type it has and what it is for.
pub proof fn law_a_property_says_its_type(kind: Seq<char>, description: Seq<char>)
    ensures
        property(kind, description).get("type"@) == Some(JsonView::Text(kind)),
        property(kind, description).get("description"@) == Some(JsonView::Text(description)),
{
    reveal_strlit("type");
    reveal_strlit("description");
    assert("type"@.len() == 4 && "description"@.len() == 11);
    reveal_with_fuel(JsonView::position, 3);
    let entries = property(kind, description)->Object_0;
    assert(entries[0].0 == "type"@ && entries[1].0 == "description"@);
}

/// A count is a whole number, and none is less than one.
pub proof fn law_a_count_is_at_least_one(description: Seq<char>)
    ensures
        counting_property(description).get("type"@) == Some(JsonView::Text("integer"@)),
        counting_property(description).get("minimum"@) == Some(JsonView::Int(1)),
        counting_property(description).get("description"@) == Some(JsonView::Text(description)),
{
    reveal_strlit("type");
    reveal_strlit("minimum");
    reveal_strlit("description");
    assert("type"@.len() == 4 && "minimum"@.len() == 7 && "description"@.len() == 11);
    reveal_with_fuel(JsonView::position, 4);
    let entries = counting_property(description)->Object_0;
    assert(entries[0].0 == "type"@ && entries[1].0 == "minimum"@ && entries[2].0
        == "description"@);
}

} // verus!
