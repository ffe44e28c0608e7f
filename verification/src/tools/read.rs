//! The `read` tool: a file, in whole lines, and what to do when there is more of it.
//!
//! The contract, which the model is told about through [`ReadArgs::schema`]:
//!
//! - `path`, `offset` (1-based), `limit` (lines). No line numbers in the answer: the model steps
//!   through a long file with `offset`, and numbering every line would spend context on a column
//!   nothing needs.
//! - The answer is never cut mid-line and never silently short: it ends with the lines it showed
//!   and the offset that continues them, or, when a single line is longer than the whole budget,
//!   with the command that would read it instead.
//!
//! The size limits live in [`super::truncate`], because `bash` bounds its output the same way.

use vstd::prelude::*;
use vstd::utf8::{decode_utf8, decode_utf8_encode_utf8, encode_utf8, valid_utf8};

use super::schema::{
    build_counting_property, build_parameters, build_property, counting_property,
    law_a_count_is_at_least_one, law_a_property_says_its_type, law_a_schema_lists_its_parameters,
    names, parameters, property,
};
use super::truncate::{head, head_view, Truncated, TruncatedView, MAX_BYTES, MAX_LINES};
use crate::json::{entry_views, no_entries, put, Json, JsonView};
use crate::text::{copy, count_of, decimal, utf8_text};

verus! {

/// What the model may pass.
#[derive(Debug, Clone, PartialEq, Eq)]
pub struct ReadArgs {
    pub path: String,
    /// 1-based line to start at: what a previous answer's `offset` said.
    pub offset: Option<usize>,
    /// How many lines to show at most.
    pub limit: Option<usize>,
}

#[verifier::ext_equal]
pub struct ReadArgsView {
    pub path: Seq<char>,
    pub offset: Option<usize>,
    pub limit: Option<usize>,
}

impl View for ReadArgs {
    type V = ReadArgsView;

    open spec fn view(&self) -> ReadArgsView {
        ReadArgsView { path: self.path@, offset: self.offset, limit: self.limit }
    }
}

impl ReadArgsView {
    /// The line a read starts at: the one asked for, and never before the first.
    pub open spec fn first_line(self) -> int {
        match self.offset {
            Some(offset) => if offset >= 1 {
                offset as int
            } else {
                1
            },
            None => 1,
        }
    }

    /// How many lines a read may show: what was asked for, and never none.
    pub open spec fn most_lines(self) -> int {
        match self.limit {
            Some(limit) => if limit >= 1 {
                limit as int
            } else {
                1
            },
            None => MAX_LINES as int,
        }
    }
}

/// The schema the model is shown for a read.
pub open spec fn read_schema() -> JsonView {
    parameters(
        seq![
            ("path"@, property("string"@, "Path of the file to read. `~` is expanded."@)),
            (
                "offset"@,
                counting_property(
                    "Line to start at, 1-based. Use the offset a previous read told you."@,
                ),
            ),
            ("limit"@, counting_property("How many lines to read at most."@)),
        ],
        seq!["path"@],
    )
}

impl ReadArgs {
    pub fn new(path: &str) -> (out: Self)
        ensures
            out@ == (ReadArgsView { path: path@, offset: None, limit: None }),
    {
        ReadArgs { path: copy(path), offset: None, limit: None }
    }

    pub fn from_line(self, offset: usize) -> (out: Self)
        ensures
            out@ == (ReadArgsView { offset: Some(offset), ..self@ }),
    {
        ReadArgs { path: self.path, offset: Some(offset), limit: self.limit }
    }

    pub fn with_limit(self, limit: usize) -> (out: Self)
        ensures
            out@ == (ReadArgsView { limit: Some(limit), ..self@ }),
    {
        ReadArgs { path: self.path, offset: self.offset, limit: Some(limit) }
    }

    /// The line to start at and how many lines to show.
    pub fn window(&self) -> (out: (usize, usize))
        ensures
            out.0 == self@.first_line(),
            out.1 == self@.most_lines(),
    {
        let offset: usize = match self.offset {
            Some(offset) => if offset >= 1 {
                offset
            } else {
                1
            },
            None => 1,
        };
        let limit: usize = match self.limit {
            Some(limit) => if limit >= 1 {
                limit
            } else {
                1
            },
            None => MAX_LINES,
        };
        (offset, limit)
    }

    /// The JSON schema the model is shown.
    ///
    /// A parameter the model is told about but that nothing reads is worse than no parameter, and
    /// so is one it is not told about but that changes the answer.
    pub fn schema() -> (out: Json)
        ensures
            out@ == read_schema(),
    {
        let mut properties = no_entries();
        put(
            &mut properties,
            "path",
            build_property("string", "Path of the file to read. `~` is expanded."),
        );
        put(
            &mut properties,
            "offset",
            build_counting_property(
                "Line to start at, 1-based. Use the offset a previous read told you.",
            ),
        );
        put(&mut properties, "limit", build_counting_property("How many lines to read at most."));
        let ghost held = entry_views(properties@);
        let required: [&str; 1] = ["path"];
        let out = build_parameters(properties, &required);
        assert(held =~= read_schema()->Object_0[1].1->Object_0);
        assert(Seq::new(required@.len(), |i: int| required@[i]@) =~= seq!["path"@]);
        out
    }
}

// ---------------------------------------------------------------------------------------------
// Failures

#[derive(Debug, Clone, PartialEq, Eq)]
pub enum ReadError {
    NotFound(String),
    NotAFile(String),
    NotUtf8(String),
    Io { path: String, error: String },
}

#[verifier::ext_equal]
pub enum ReadErrorView {
    NotFound(Seq<char>),
    NotAFile(Seq<char>),
    NotUtf8(Seq<char>),
    Io { path: Seq<char>, error: Seq<char> },
}

impl View for ReadError {
    type V = ReadErrorView;

    open spec fn view(&self) -> ReadErrorView {
        match *self {
            ReadError::NotFound(path) => ReadErrorView::NotFound(path@),
            ReadError::NotAFile(path) => ReadErrorView::NotAFile(path@),
            ReadError::NotUtf8(path) => ReadErrorView::NotUtf8(path@),
            ReadError::Io { path, error } => ReadErrorView::Io { path: path@, error: error@ },
        }
    }
}

impl ReadErrorView {
    /// What the model is told: what is wrong, and what to do instead.
    pub open spec fn message(self) -> Seq<char> {
        match self {
            ReadErrorView::NotFound(path) => path + " does not exist"@,
            ReadErrorView::NotAFile(path) => path + " is a directory; use bash (for example `ls "@
                + path + "`) to list it"@,
            ReadErrorView::NotUtf8(path) => path
                + " is not text (invalid UTF-8); use bash to inspect it"@,
            ReadErrorView::Io { path, error } => path + " could not be read: "@ + error,
        }
    }
}

impl ReadError {
    /// What the model is told: what is wrong, and what to do instead.
    pub fn message(&self) -> (out: String)
        ensures
            out@ == self@.message(),
    {
        match self {
            ReadError::NotFound(path) => {
                let mut out = copy(path);
                out.append(" does not exist");
                out
            },
            ReadError::NotAFile(path) => {
                let mut out = copy(path);
                out.append(" is a directory; use bash (for example `ls ");
                out.append(path);
                out.append("`) to list it");
                out
            },
            ReadError::NotUtf8(path) => {
                let mut out = copy(path);
                out.append(" is not text (invalid UTF-8); use bash to inspect it");
                out
            },
            ReadError::Io { path, error } => {
                let mut out = copy(path);
                out.append(" could not be read: ");
                out.append(error);
                out
            },
        }
    }
}

// ---------------------------------------------------------------------------------------------
// Reading

/// What a look at a path on disk found.
#[derive(Debug, Clone, PartialEq, Eq)]
pub enum OnDisk {
    /// Nothing there.
    Missing,
    Directory,
    /// Something that could not be looked at, or a file that could not be read.
    Unreadable(String),
    File(Vec<u8>),
}

/// The text of what is on disk, or why it is not one.
pub open spec fn whole_text(path: Seq<char>, found: OnDisk) -> Result<Seq<char>, ReadErrorView> {
    match found {
        OnDisk::Missing => Err(ReadErrorView::NotFound(path)),
        OnDisk::Directory => Err(ReadErrorView::NotAFile(path)),
        OnDisk::Unreadable(error) => Err(ReadErrorView::Io { path, error: error@ }),
        OnDisk::File(bytes) => if valid_utf8(bytes@) {
            Ok(decode_utf8(bytes@))
        } else {
            Err(ReadErrorView::NotUtf8(path))
        },
    }
}

/// A file's whole text, with none of the limits of [`read`].
///
/// What a tool that rewrites a file needs: `read` shows the model a view, this is the thing itself.
/// It is the same failures, reported the same way, so a caller does not have to decide which of two
/// read functions to call.
pub fn read_whole(path: &str, found: OnDisk) -> (out: Result<String, ReadError>)
    ensures
        match (out, whole_text(path@, found)) {
            (Ok(text), Ok(want)) => text@ == want,
            (Err(error), Err(want)) => error@ == want,
            _ => false,
        },
{
    match found {
        OnDisk::Missing => Err(ReadError::NotFound(copy(path))),
        OnDisk::Directory => Err(ReadError::NotAFile(copy(path))),
        OnDisk::Unreadable(error) => Err(ReadError::Io { path: copy(path), error }),
        OnDisk::File(bytes) => match utf8_text(bytes) {
            Some(text) => Ok(text),
            None => Err(ReadError::NotUtf8(copy(path))),
        },
    }
}

/// A file as the model gets to see it.
#[derive(Debug, Clone, PartialEq, Eq)]
pub struct ReadOutput {
    pub path: String,
    /// The lines that were shown, and what was left out.
    pub shown: Truncated,
    /// The file's size, so a caller can log what a read cost.
    pub bytes: usize,
}

#[verifier::ext_equal]
pub struct ReadOutputView {
    pub path: Seq<char>,
    pub shown: TruncatedView,
    pub bytes: usize,
}

impl View for ReadOutput {
    type V = ReadOutputView;

    open spec fn view(&self) -> ReadOutputView {
        ReadOutputView { path: self.path@, shown: self.shown@, bytes: self.bytes }
    }
}

/// A number as it is written in a sentence.
pub open spec fn written(n: int) -> Seq<char> {
    decimal(n as nat)
}

impl ReadOutputView {
    /// The text the model is shown: the file, plus whatever it has to be told about the file.
    pub open spec fn rendered(self) -> Seq<char> {
        if self.shown.first_line_overflows {
            let line = written(self.shown.first_line);
            let most = written(MAX_BYTES as int);
            "["@ + self.path + " line "@ + line + " is longer than "@ + most
                + " bytes on its own, so it cannot be read line by line. Use bash to take a slice, for example: `sed -n '"@
                + line + "p' "@ + self.path + " | head -c "@ + most + "`]"@
        } else {
            match self.shown.next_offset() {
                Some(offset) => self.shown.text + "\n\n[showing lines "@ + written(
                    self.shown.first_line,
                ) + "-"@ + written(self.shown.last_line) + " of "@ + written(
                    self.shown.total_lines,
                ) + ". Use offset="@ + written(offset) + " to continue.]"@,
                None => self.shown.text,
            }
        }
    }
}

impl ReadOutput {
    /// The text the model is shown: the file, plus whatever it has to be told about the file.
    pub fn render(&self) -> (out: String)
        ensures
            out@ == self@.rendered(),
    {
        if self.shown.first_line_overflows {
            let line = count_of(self.shown.first_line);
            let most = count_of(MAX_BYTES);
            let mut out = copy("[");
            out.append(&self.path);
            out.append(" line ");
            out.append(&line);
            out.append(" is longer than ");
            out.append(&most);
            out.append(
                " bytes on its own, so it cannot be read line by line. Use bash to take a slice, for example: `sed -n '",
            );
            out.append(&line);
            out.append("p' ");
            out.append(&self.path);
            out.append(" | head -c ");
            out.append(&most);
            out.append("`]");
            return out;
        }
        let mut out = copy(&self.shown.text);
        match self.shown.next_offset() {
            Some(offset) => {
                out.append("\n\n[showing lines ");
                out.append(&count_of(self.shown.first_line));
                out.append("-");
                out.append(&count_of(self.shown.last_line));
                out.append(" of ");
                out.append(&count_of(self.shown.total_lines));
                out.append(". Use offset=");
                out.append(&count_of(offset));
                out.append(" to continue.]");
            },
            None => {},
        }
        out
    }

    pub fn is_empty(&self) -> (out: bool)
        ensures
            out == (self@.shown.text.len() == 0),
    {
        self.shown.is_empty()
    }
}

/// What a read of a file answers, once it is known what is on disk at the path and how large that
/// is.
pub fn read(args: &ReadArgs, path: &str, bytes: usize, found: OnDisk) -> (out: Result<
    ReadOutput,
    ReadError,
>)
    ensures
        match (out, whole_text(path@, found)) {
            (Ok(output), Ok(text)) => output@ == (ReadOutputView {
                path: path@,
                shown: head_view(
                    text,
                    args@.first_line(),
                    args@.most_lines(),
                    MAX_BYTES as int,
                ),
                bytes,
            }),
            (Err(error), Err(want)) => error@ == want,
            _ => false,
        },
{
    let (offset, max_lines) = args.window();
    match read_whole(path, found) {
        Ok(text) => Ok(
            ReadOutput {
                path: copy(path),
                shown: head(&text, offset, max_lines, MAX_BYTES),
                bytes,
            },
        ),
        Err(error) => Err(error),
    }
}

// ---------------------------------------------------------------------------------------------
// Laws

/// A read starts at the line that was asked for and shows no more lines than were asked for; where
/// nothing was asked it starts at the first and shows as many as there is room for, and a zero is
/// taken as a one.
pub proof fn law_a_read_looks_where_it_was_asked_to(args: ReadArgsView)
    ensures
        args.offset matches Some(offset) ==> (offset >= 1 ==> args.first_line() == offset),
        args.offset is None || args.offset == Some(0usize) ==> args.first_line() == 1,
        args.limit matches Some(limit) ==> (limit >= 1 ==> args.most_lines() == limit),
        args.limit == Some(0usize) ==> args.most_lines() == 1,
        args.limit is None ==> args.most_lines() == 2000,
{
}

/// A file that is text is read byte for byte, one that is not is refused, and so is everything that
/// is no file; the refusal names the path.
pub proof fn law_what_is_read_is_what_is_there(path: Seq<char>, found: OnDisk)
    ensures
        found matches OnDisk::File(bytes) ==> match whole_text(path, found) {
            Ok(text) => valid_utf8(bytes@) && encode_utf8(text) == bytes@,
            Err(error) => !valid_utf8(bytes@) && error == ReadErrorView::NotUtf8(path),
        },
        found is Missing ==> whole_text(path, found) == Err::<Seq<char>, ReadErrorView>(
            ReadErrorView::NotFound(path),
        ),
        found is Directory ==> whole_text(path, found) == Err::<Seq<char>, ReadErrorView>(
            ReadErrorView::NotAFile(path),
        ),
        found matches OnDisk::Unreadable(error) ==> whole_text(path, found) == Err::<
            Seq<char>,
            ReadErrorView,
        >(ReadErrorView::Io { path, error: error@ }),
{
    if let OnDisk::File(bytes) = found {
        if valid_utf8(bytes@) {
            decode_utf8_encode_utf8(bytes@);
        }
    }
}

/// What is shown is the text that was read and nothing else, unless there is more below it: the text
/// is then followed by the lines it was, of how many, and the offset that goes on from there.
pub proof fn law_a_short_answer_says_how_to_go_on(output: ReadOutputView)
    requires
        !output.shown.first_line_overflows,
    ensures
        output.shown.last_line >= output.shown.total_lines ==> output.rendered()
            == output.shown.text,
        output.shown.last_line < output.shown.total_lines ==> output.rendered()
            == output.shown.text + "\n\n[showing lines "@ + decimal(
            output.shown.first_line as nat,
        ) + "-"@ + decimal(output.shown.last_line as nat) + " of "@ + decimal(
            output.shown.total_lines as nat,
        ) + ". Use offset="@ + decimal((output.shown.last_line + 1) as nat) + " to continue.]"@,
{
}

/// The model is told to pass a path, and that it may pass the line to start at and how many lines to
/// read, each a whole number from one on.
pub proof fn law_a_read_asks_for_a_path()
    ensures
        read_schema().get("type"@) == Some(JsonView::Text("object"@)),
        read_schema().get("required"@) == Some(JsonView::List(seq![JsonView::Text("path"@)])),
        read_schema().get("properties"@) matches Some(properties) && {
            &&& properties.get_in("path"@, "type"@) == Some(JsonView::Text("string"@))
            &&& properties.get_in("offset"@, "type"@) == Some(JsonView::Text("integer"@))
            &&& properties.get_in("offset"@, "minimum"@) == Some(JsonView::Int(1))
            &&& properties.get_in("limit"@, "type"@) == Some(JsonView::Text("integer"@))
            &&& properties.get_in("limit"@, "minimum"@) == Some(JsonView::Int(1))
        },
{
    reveal_strlit("path");
    reveal_strlit("offset");
    reveal_strlit("limit");
    assert("path"@.len() == 4 && "offset"@.len() == 6 && "limit"@.len() == 5);
    let path = property("string"@, "Path of the file to read. `~` is expanded."@);
    let offset = counting_property(
        "Line to start at, 1-based. Use the offset a previous read told you."@,
    );
    let limit = counting_property("How many lines to read at most."@);
    let properties = seq![("path"@, path), ("offset"@, offset), ("limit"@, limit)];
    law_a_schema_lists_its_parameters(properties, seq!["path"@]);
    law_a_property_says_its_type("string"@, "Path of the file to read. `~` is expanded."@);
    law_a_count_is_at_least_one(
        "Line to start at, 1-based. Use the offset a previous read told you."@,
    );
    law_a_count_is_at_least_one("How many lines to read at most."@);
    assert(names(seq!["path"@])->List_0 =~= seq![JsonView::Text("path"@)]);
    reveal_with_fuel(JsonView::position, 4);
    assert(properties[0].0 == "path"@ && properties[1].0 == "offset"@ && properties[2].0
        == "limit"@);
}

/// What the model is told of a file that cannot be read names the file and what to do instead.
pub proof fn law_a_failed_read_says_what_to_do(error: ReadErrorView)
    ensures
        match error {
            ReadErrorView::NotFound(path) => error.message() == path + " does not exist"@,
            ReadErrorView::NotAFile(path) => error.message() == path
                + " is a directory; use bash (for example `ls "@ + path + "`) to list it"@,
            ReadErrorView::NotUtf8(path) => error.message() == path
                + " is not text (invalid UTF-8); use bash to inspect it"@,
            ReadErrorView::Io { path, error: fault } => error.message() == path
                + " could not be read: "@ + fault,
        },
{
}

/// A line that is too long to be shown is named, with the command that would take a slice of it.
pub proof fn law_a_line_too_long_is_named(output: ReadOutputView)
    requires
        output.shown.first_line_overflows,
    ensures
        ({
            let line = decimal(output.shown.first_line as nat);
            let most = decimal(51200);
            output.rendered() == "["@ + output.path + " line "@ + line + " is longer than "@ + most
                + " bytes on its own, so it cannot be read line by line. Use bash to take a slice, for example: `sed -n '"@
                + line + "p' "@ + output.path + " | head -c "@ + most + "`]"@
        }),
{
}

} // verus!
