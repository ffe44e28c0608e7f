//! The `write` tool: put a whole file there.
//!
//! The blunt one on purpose. `edit` is for changing part of a file; `write` is for creating one:
//! a prompt file the user asked for, a scratch file the agent keeps notes in, a generated listing.
//! It has no patch mode and no dry run: what it is given is what lands on disk.
//!
//! It takes the file's turn in [`super::queue`] while it works. A turn where the model asks for a
//! `write` and an `edit` of the same file produces both calls at once, and without the queue the
//! one that finishes second silently discards the other's work.

use vstd::prelude::*;

use super::schema::{
    build_parameters, build_property, law_a_property_says_its_type,
    law_a_schema_lists_its_parameters, names, parameters, property,
};
use crate::json::{entry_views, no_entries, put, Json, JsonView};
use crate::text::{byte_len, copy, size_of};

verus! {

#[derive(Debug, Clone, PartialEq, Eq)]
pub struct WriteArgs {
    pub path: String,
    /// The file's whole content. Parent directories are created as needed.
    pub content: String,
}

#[verifier::ext_equal]
pub struct WriteArgsView {
    pub path: Seq<char>,
    pub content: Seq<char>,
}

impl View for WriteArgs {
    type V = WriteArgsView;

    open spec fn view(&self) -> WriteArgsView {
        WriteArgsView { path: self.path@, content: self.content@ }
    }
}

/// The schema the model is shown for a write.
pub open spec fn write_schema() -> JsonView {
    parameters(
        seq![
            (
                "path"@,
                property(
                    "string"@,
                    "Path of the file to write. `~` is expanded, and missing parent directories are created."@,
                ),
            ),
            (
                "content"@,
                property(
                    "string"@,
                    "The file's entire content. This replaces the file — to change part of one, use edit."@,
                ),
            ),
        ],
        seq!["path"@, "content"@],
    )
}

impl WriteArgs {
    /// The JSON schema the model is shown.
    pub fn schema() -> (out: Json)
        ensures
            out@ == write_schema(),
    {
        let mut properties = no_entries();
        put(
            &mut properties,
            "path",
            build_property(
                "string",
                "Path of the file to write. `~` is expanded, and missing parent directories are created.",
            ),
        );
        put(
            &mut properties,
            "content",
            build_property(
                "string",
                "The file's entire content. This replaces the file — to change part of one, use edit.",
            ),
        );
        let ghost held = entry_views(properties@);
        let required: [&str; 2] = ["path", "content"];
        let out = build_parameters(properties, &required);
        assert(held =~= write_schema()->Object_0[1].1->Object_0);
        assert(Seq::new(required@.len(), |i: int| required@[i]@) =~= seq!["path"@, "content"@]);
        out
    }
}

#[derive(Debug, Clone, PartialEq, Eq)]
pub enum WriteError {
    Io { path: String, error: String },
}

#[verifier::ext_equal]
pub struct WriteErrorView {
    pub path: Seq<char>,
    pub error: Seq<char>,
}

impl View for WriteError {
    type V = WriteErrorView;

    open spec fn view(&self) -> WriteErrorView {
        match *self {
            WriteError::Io { path, error } => WriteErrorView { path: path@, error: error@ },
        }
    }
}

/// What is said of a file that could not be written.
pub open spec fn not_written(path: Seq<char>, error: Seq<char>) -> Seq<char> {
    path + " could not be written: "@ + error
}

/// What is said of a file that could not be written.
pub fn not_written_text(path: &str, error: &str) -> (out: String)
    ensures
        out@ == not_written(path@, error@),
{
    let mut out = copy(path);
    out.append(" could not be written: ");
    out.append(error);
    out
}

impl WriteError {
    pub fn message(&self) -> (out: String)
        ensures
            out@ == not_written(self@.path, self@.error),
    {
        match self {
            WriteError::Io { path, error } => not_written_text(path, error),
        }
    }
}

#[derive(Debug, Clone, PartialEq, Eq)]
pub struct WriteOutput {
    pub path: String,
    pub bytes: usize,
    /// Whether the file was there before. The transcript says "created" or "replaced", which is the
    /// difference between a new prompt file and someone's work being overwritten.
    pub created: bool,
}

/// How putting a file on disk went.
#[derive(Debug, Clone, PartialEq, Eq)]
pub enum Written {
    /// It is there; `existed` is whether something was there before.
    Done { existed: bool },
    /// The directory it belongs in could not be made.
    NoDirectory { dir: String, error: String },
    /// The file itself could not be written.
    Refused(String),
}

/// What a write answers, once it is known how putting the file on disk went.
pub fn write(args: &WriteArgs, path: &str, outcome: Written) -> (out: Result<
    WriteOutput,
    WriteError,
>)
    ensures
        match outcome {
            Written::Done { existed } => {
                &&& out is Ok
                &&& out->Ok_0.path@ == path@
                &&& out->Ok_0.bytes == byte_len(args@.content)
                &&& out->Ok_0.created == !existed
            },
            Written::NoDirectory { dir, error } => {
                &&& out is Err
                &&& out->Err_0@ == (WriteErrorView { path: dir@, error: error@ })
            },
            Written::Refused(error) => {
                &&& out is Err
                &&& out->Err_0@ == (WriteErrorView { path: path@, error: error@ })
            },
        },
{
    match outcome {
        Written::Done { existed } => Ok(
            WriteOutput { path: copy(path), bytes: size_of(&args.content), created: !existed },
        ),
        Written::NoDirectory { dir, error } => Err(WriteError::Io { path: dir, error }),
        Written::Refused(error) => Err(WriteError::Io { path: copy(path), error }),
    }
}

// ---------------------------------------------------------------------------------------------
// Laws

/// The model is told to pass a path and the whole content, both of them texts.
pub proof fn law_a_write_asks_for_a_path_and_its_content()
    ensures
        write_schema().get("type"@) == Some(JsonView::Text("object"@)),
        write_schema().get("required"@) == Some(
            JsonView::List(seq![JsonView::Text("path"@), JsonView::Text("content"@)]),
        ),
        write_schema().get("properties"@) matches Some(properties) && properties.get_in(
            "path"@,
            "type"@,
        ) == Some(JsonView::Text("string"@)) && properties.get_in("content"@, "type"@) == Some(
            JsonView::Text("string"@),
        ),
{
    reveal_strlit("path");
    reveal_strlit("content");
    assert("path"@.len() == 4 && "content"@.len() == 7);
    let properties = write_schema()->Object_0[1].1->Object_0;
    let required = seq!["path"@, "content"@];
    law_a_schema_lists_its_parameters(properties, required);
    assert(write_schema() == parameters(properties, required));
    assert(names(required)->List_0 =~= seq![JsonView::Text("path"@), JsonView::Text("content"@)]);
    law_a_property_says_its_type(
        "string"@,
        "Path of the file to write. `~` is expanded, and missing parent directories are created."@,
    );
    law_a_property_says_its_type(
        "string"@,
        "The file's entire content. This replaces the file — to change part of one, use edit."@,
    );
    reveal_with_fuel(JsonView::position, 3);
    assert(properties[0].0 == "path"@ && properties[1].0 == "content"@);
}

/// What is said of a file that could not be written names the file and what went wrong.
pub proof fn law_a_failed_write_says_what_went_wrong(path: Seq<char>, error: Seq<char>)
    ensures
        not_written(path, error) == path + " could not be written: "@ + error,
{
}

} // verus!
