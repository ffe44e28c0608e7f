//! The `bash` tool: one command, bounded output, and an honest exit status.
//!
//! What it is: a **non-interactive** shell invocation. Stdin is closed, the two output streams are
//! read together, and the call ends when the command does.
//!
//! Two decisions worth stating:
//!
//! - **The output is the *tail*.** A build's errors are at the end, and a command that prints a
//!   hundred thousand lines has its interesting ones last. Everything is still on disk: once the
//!   output crosses the in-memory budget it is mirrored to an artifact and the answer names it, so
//!   nothing is lost; the model is told where the rest is rather than being handed a fragment.
//! - **A timeout is data, and being overruled is said out loud.** The default, the floor and the
//!   ceiling live in one table below; `0` means "no deadline" explicitly; and when a requested
//!   timeout is clamped the answer carries a line saying so, because silently running for less time
//!   than the model asked for is how a tool lies.

use vstd::prelude::*;
use vstd::utf8::*;

use super::schema::{
    build_parameters, build_property, law_a_property_says_its_type,
    law_a_schema_lists_its_parameters, names, parameters, property,
};
use super::truncate::{
    cap_columns, cap_columns_view, lemma_tail_count, tail, tail_view, Truncated, TruncatedView,
    MAX_BYTES, MAX_COLUMN, MAX_LINES,
};
use crate::json::{entry_views, no_entries, object, put, text, Json, JsonView};
use crate::paths::{
    absolute, expand_tilde_with, is_absolute, join_path, joined, tilde_expanded,
};
use crate::text::{
    begins, begins_with, blank, byte_len, chars_of, copy, copy_opt, count_of, decimal, decimal_of,
    find_from, find_of, join, join_of, law_trimming_undoes_padding, lemma_boundary,
    lemma_byte_len_add, lemma_byte_len_chars, lemma_bytes_after, lemma_find_from, lemma_views_push,
    lines, lossy, lossy_text, opt_view, signed_decimal, signed_decimal_of, size_of, stands_at,
    string_of, trim, trim_of, trim_start, trim_start_of, views, white,
};

verus! {

/// Seconds a command may run when the model does not say.
pub const DEFAULT_TIMEOUT_SECS: u64 = 300;

/// The shortest deadline a caller may ask for. Zero is not "a very short time": it is "no deadline",
/// and one second is the shortest that means anything.
pub const MIN_TIMEOUT_SECS: u64 = 1;

/// The longest deadline a caller may ask for, however large a number it sends.
pub const MAX_TIMEOUT_SECS: u64 = 3600;

/// How much output is kept in memory before it starts going to an artifact instead.
pub const MEMORY_BUDGET: usize = 262144;

// ---------------------------------------------------------------------------------------------
// Arguments

#[derive(Debug, Clone, PartialEq, Eq)]
pub struct BashArgs {
    pub command: String,
    /// Seconds to allow. Omitted means [`DEFAULT_TIMEOUT_SECS`]; `0` means no deadline at all.
    pub timeout: Option<u64>,
    /// Where to run it. Relative paths are resolved against the session's working directory. When
    /// omitted, a leading `cd <dir> && ` in the command is used instead.
    pub cwd: Option<String>,
}

#[verifier::ext_equal]
pub struct BashArgsView {
    pub command: Seq<char>,
    pub timeout: Option<u64>,
    pub cwd: Option<Seq<char>>,
}

impl View for BashArgs {
    type V = BashArgsView;

    open spec fn view(&self) -> BashArgsView {
        BashArgsView {
            command: self.command@,
            timeout: self.timeout,
            cwd: opt_view(self.cwd),
        }
    }
}

/// What the model is told of a timeout.
pub open spec fn timeout_property() -> JsonView {
    JsonView::Object(
        seq![
            ("type"@, JsonView::Text("integer"@)),
            ("minimum"@, JsonView::Int(0)),
            (
                "description"@,
                JsonView::Text(
                    "Seconds to allow. Omitted means 300. `0` means no deadline; anything above 3600 is run as 3600 and the answer will say so."@,
                ),
            ),
        ],
    )
}

/// The schema the model is shown for a command.
pub open spec fn bash_schema() -> JsonView {
    parameters(
        seq![
            (
                "command"@,
                property(
                    "string"@,
                    "The command line to run, through `bash -c`. It is not interactive: stdin is closed. Prefer one command that prints what you need over several that each print a little."@,
                ),
            ),
            ("timeout"@, timeout_property()),
            (
                "cwd"@,
                property(
                    "string"@,
                    "Directory to run in. Relative paths resolve against the session directory. Omitted: a leading `cd <dir> && ` in the command is used."@,
                ),
            ),
        ],
        seq!["command"@],
    )
}

impl BashArgs {
    pub fn new(command: &str) -> (out: Self)
        ensures
            out@ == (BashArgsView { command: command@, timeout: None, cwd: None }),
    {
        BashArgs { command: copy(command), timeout: None, cwd: None }
    }

    /// The JSON schema the model is shown.
    pub fn schema() -> (out: Json)
        ensures
            out@ == bash_schema(),
    {
        let mut timeout = no_entries();
        put(&mut timeout, "type", text("integer"));
        put(&mut timeout, "minimum", Json::Unsigned(0));
        put(
            &mut timeout,
            "description",
            text(
                "Seconds to allow. Omitted means 300. `0` means no deadline; anything above 3600 is run as 3600 and the answer will say so.",
            ),
        );
        let ghost inner = entry_views(timeout@);
        let mut properties = no_entries();
        put(
            &mut properties,
            "command",
            build_property(
                "string",
                "The command line to run, through `bash -c`. It is not interactive: stdin is closed. Prefer one command that prints what you need over several that each print a little.",
            ),
        );
        put(&mut properties, "timeout", object(timeout));
        put(
            &mut properties,
            "cwd",
            build_property(
                "string",
                "Directory to run in. Relative paths resolve against the session directory. Omitted: a leading `cd <dir> && ` in the command is used.",
            ),
        );
        let ghost held = entry_views(properties@);
        let required: [&str; 1] = ["command"];
        let out = build_parameters(properties, &required);
        assert(inner =~= timeout_property()->Object_0);
        assert(held =~= bash_schema()->Object_0[1].1->Object_0);
        assert(Seq::new(required@.len(), |i: int| required@[i]@) =~= seq!["command"@]);
        out
    }
}

// ---------------------------------------------------------------------------------------------
// Timeouts

/// What a call's timeout came to, and whether the caller had to be overruled.
#[derive(Debug, Clone, Copy, PartialEq, Eq)]
pub struct Timeout {
    /// `None` is "no deadline": the command runs until it finishes.
    pub secs: Option<u64>,
    /// `(requested, used)` when the request did not survive the table.
    pub clamped: Option<(u64, u64)>,
}

/// The table: nothing asked for is the default, `0` is no deadline, and everything else is held
/// between the floor and the ceiling.
pub open spec fn timeout_for(requested: Option<u64>) -> Timeout {
    match requested {
        None => Timeout { secs: Some(DEFAULT_TIMEOUT_SECS), clamped: None },
        Some(secs) => if secs == 0 {
            Timeout { secs: None, clamped: None }
        } else if secs < MIN_TIMEOUT_SECS {
            Timeout { secs: Some(MIN_TIMEOUT_SECS), clamped: Some((secs, MIN_TIMEOUT_SECS)) }
        } else if secs > MAX_TIMEOUT_SECS {
            Timeout { secs: Some(MAX_TIMEOUT_SECS), clamped: Some((secs, MAX_TIMEOUT_SECS)) }
        } else {
            Timeout { secs: Some(secs), clamped: None }
        },
    }
}

/// Resolve a requested timeout against the table above.
pub fn resolve_timeout(requested: Option<u64>) -> (out: Timeout)
    ensures
        out == timeout_for(requested),
{
    match requested {
        None => Timeout { secs: Some(DEFAULT_TIMEOUT_SECS), clamped: None },
        Some(secs) => if secs == 0 {
            // No deadline, at the caller's explicit request.
            Timeout { secs: None, clamped: None }
        } else if secs < MIN_TIMEOUT_SECS {
            Timeout { secs: Some(MIN_TIMEOUT_SECS), clamped: Some((secs, MIN_TIMEOUT_SECS)) }
        } else if secs > MAX_TIMEOUT_SECS {
            Timeout { secs: Some(MAX_TIMEOUT_SECS), clamped: Some((secs, MAX_TIMEOUT_SECS)) }
        } else {
            Timeout { secs: Some(secs), clamped: None }
        },
    }
}

/// The line that says a timeout was overruled.
pub open spec fn clamp_line(timeout: Timeout) -> Option<Seq<char>> {
    match timeout.clamped {
        Some((requested, used)) => Some(
            "timeout clamped to "@ + decimal(used as nat) + "s (asked for "@ + decimal(
                requested as nat,
            ) + "s)"@,
        ),
        None => None,
    }
}

/// The line that says a timeout was overruled, if it was.
pub fn clamp_notice(timeout: Timeout) -> (out: Option<String>)
    ensures
        opt_view(out) == clamp_line(timeout),
{
    match timeout.clamped {
        Some((requested, used)) => {
            let mut out = copy("timeout clamped to ");
            out.append(&decimal_of(used));
            out.append("s (asked for ");
            out.append(&decimal_of(requested));
            out.append("s)");
            Some(out)
        },
        None => None,
    }
}

// ---------------------------------------------------------------------------------------------
// Where a command runs

/// A text without the copies of a character at its start.
pub open spec fn strip_front(s: Seq<char>, c: char) -> Seq<char>
    decreases s.len(),
{
    if s.len() > 0 && s[0] == c {
        strip_front(s.drop_first(), c)
    } else {
        s
    }
}

/// A text without the copies of a character at its end.
pub open spec fn strip_back(s: Seq<char>, c: char) -> Seq<char>
    decreases s.len(),
{
    if s.len() > 0 && s.last() == c {
        strip_back(s.drop_last(), c)
    } else {
        s
    }
}

/// A directory as it stood in a command: without the space around it and the quotes it may be in.
pub open spec fn unquoted(s: Seq<char>) -> Seq<char> {
    let bare = trim(s);
    let double = strip_back(strip_front(bare, '"'), '"');
    trim(strip_back(strip_front(double, '\''), '\''))
}

/// `cd dir && rest` as its directory and its rest. A command that does not start that way, or that
/// names no directory, has neither.
pub open spec fn leading_cd(command: Seq<char>) -> Option<(Seq<char>, Seq<char>)> {
    let start = trim_start(command);
    if begins(start, "cd "@) {
        let rest = start.skip(3);
        let (dir, tail) = match find_from(rest, "&&"@, 0) {
            Some(at) => (rest.take(at), trim_start(rest.skip(at + 2))),
            None => (rest, Seq::empty()),
        };
        if unquoted(dir).len() == 0 {
            None
        } else {
            Some((unquoted(dir), tail))
        }
    } else {
        None
    }
}

fn strip_both<'a>(v: &'a [char], c: char) -> (out: &'a [char])
    ensures
        out@ == strip_back(strip_front(v@, c), c),
{
    let mut i: usize = 0;
    assert(v@.skip(0) =~= v@);
    while i < v.len() && v[i] == c
        invariant
            i <= v@.len(),
            strip_front(v@, c) == strip_front(v@.skip(i as int), c),
        decreases v@.len() - i,
    {
        assert(v@.skip(i as int).drop_first() =~= v@.skip(i + 1));
        i += 1;
    }
    let ghost front = v@.skip(i as int);
    let mut j: usize = v.len();
    assert(v@.subrange(i as int, j as int) =~= front);
    while j > i && v[j - 1] == c
        invariant
            i <= j <= v@.len(),
            strip_back(front, c) == strip_back(v@.subrange(i as int, j as int), c),
        decreases j - i,
    {
        assert(v@.subrange(i as int, j as int).drop_last() =~= v@.subrange(i as int, j - 1));
        j -= 1;
    }
    vstd::slice::slice_subrange(v, i, j)
}

/// `cd dir && rest` → `(dir, rest)`, without touching anything else.
pub fn lift_leading_cd(command: &str) -> (out: Option<(String, String)>)
    ensures
        match out {
            Some(found) => leading_cd(command@) == Some((found.0@, found.1@)),
            None => leading_cd(command@) is None,
        },
{
    let chars = chars_of(command);
    let start = trim_start_of(chars.as_slice());
    proof {
        reveal_strlit("cd ");
        reveal_strlit("&&");
    }
    if !begins_with(start, chars_of("cd ").as_slice()) {
        return None;
    }
    let rest = vstd::slice::slice_subrange(start, 3, start.len());
    assert(rest@ =~= start@.skip(3));
    proof {
        lemma_find_from(rest@, "&&"@, 0);
    }
    let (dir, after): (&[char], String) = match find_of(rest, chars_of("&&").as_slice(), 0) {
        Some(at) => {
            let dir = vstd::slice::slice_subrange(rest, 0, at);
            assert(dir@ =~= rest@.take(at as int));
            let after = vstd::slice::slice_subrange(rest, at + 2, rest.len());
            assert(after@ =~= rest@.skip(at + 2));
            (dir, string_of(trim_start_of(after)))
        },
        None => {
            let after = String::new();
            assert(after@ =~= Seq::<char>::empty());
            (rest, after)
        },
    };
    let bare = trim_of(dir);
    let double = strip_both(bare, '"');
    let single = strip_both(double, '\'');
    let name = trim_of(single);
    if name.len() == 0 {
        return None;
    }
    Some((string_of(name), after))
}

/// What to run and where, before anything has looked at the directory: an explicit directory wins,
/// then a leading `cd`, then the session's own. What is relative is relative to the session.
pub open spec fn placed_command(
    args: BashArgsView,
    session: Seq<char>,
    home: Option<Seq<char>>,
) -> (Seq<char>, Seq<char>) {
    let (command, dir) = match args.cwd {
        Some(dir) => (args.command, Some(dir)),
        None => match leading_cd(args.command) {
            Some((dir, rest)) => (rest, Some(dir)),
            None => (args.command, None),
        },
    };
    (
        command,
        match dir {
            None => session,
            Some(dir) => {
                let expanded = tilde_expanded(dir, home);
                if absolute(expanded) {
                    expanded
                } else {
                    joined(session, expanded)
                }
            },
        },
    )
}

/// Work out what to run and where.
///
/// An explicit `cwd` wins. Otherwise a leading `cd <dir> &&` is lifted out of the command: models
/// write it that way constantly, and running it *as part of* the command means the reported working
/// directory would be a lie. With no directory of its own the command runs where the session does.
pub fn place_command(args: &BashArgs, session_cwd: &str, home: Option<String>) -> (out: (
    String,
    String,
))
    ensures
        (out.0@, out.1@) == placed_command(args@, session_cwd@, opt_view(home)),
{
    let (command, dir): (String, Option<String>) = match &args.cwd {
        Some(dir) => (copy(&args.command), Some(copy(dir))),
        None => match lift_leading_cd(&args.command) {
            Some((dir, rest)) => (rest, Some(dir)),
            None => (copy(&args.command), None),
        },
    };
    match dir {
        None => (command, copy(session_cwd)),
        Some(dir) => {
            let expanded = expand_tilde_with(&dir, home);
            if is_absolute(&expanded) {
                (command, expanded)
            } else {
                let cwd = join_path(session_cwd, &expanded);
                (command, cwd)
            }
        },
    }
}

/// What a look at a working directory found.
#[derive(Debug, Clone, PartialEq, Eq)]
pub enum CwdFound {
    Directory,
    NotADirectory,
    Missing,
    /// It could not be inspected, for this reason.
    Hidden(String),
}

#[derive(Debug, Clone, PartialEq, Eq)]
pub enum BashError {
    BadCwd { path: String, reason: String },
    Spawn(String),
}

#[verifier::ext_equal]
pub enum BashErrorView {
    BadCwd { path: Seq<char>, reason: Seq<char> },
    Spawn(Seq<char>),
}

impl View for BashError {
    type V = BashErrorView;

    open spec fn view(&self) -> BashErrorView {
        match *self {
            BashError::BadCwd { path, reason } => BashErrorView::BadCwd {
                path: path@,
                reason: reason@,
            },
            BashError::Spawn(error) => BashErrorView::Spawn(error@),
        }
    }
}

impl BashErrorView {
    pub open spec fn message(self) -> Seq<char> {
        match self {
            BashErrorView::BadCwd { path, reason } => "working directory "@ + path + " "@ + reason,
            BashErrorView::Spawn(error) => "the command could not be started: "@ + error,
        }
    }
}

impl BashError {
    /// What the model is told.
    pub fn message(&self) -> (out: String)
        ensures
            out@ == self@.message(),
    {
        match self {
            BashError::BadCwd { path, reason } => {
                let mut out = copy("working directory ");
                out.append(path);
                out.append(" ");
                out.append(reason);
                out
            },
            BashError::Spawn(error) => {
                let mut out = copy("the command could not be started: ");
                out.append(error);
                out
            },
        }
    }
}

/// Why a working directory will not do.
pub open spec fn cwd_fault(found: CwdFound) -> Option<Seq<char>> {
    match found {
        CwdFound::Directory => None,
        CwdFound::NotADirectory => Some("is not a directory"@),
        CwdFound::Missing => Some("does not exist"@),
        CwdFound::Hidden(error) => Some("could not be inspected: "@ + error@),
    }
}

/// Whether a command can run in a directory, once it is known what is there.
pub fn check_cwd(cwd: &str, found: CwdFound) -> (out: Result<(), BashError>)
    ensures
        match cwd_fault(found) {
            None => out is Ok,
            Some(reason) => out is Err && out->Err_0@ == (BashErrorView::BadCwd {
                path: cwd@,
                reason,
            }),
        },
{
    match found {
        CwdFound::Directory => Ok(()),
        CwdFound::NotADirectory => Err(
            BashError::BadCwd { path: copy(cwd), reason: copy("is not a directory") },
        ),
        CwdFound::Missing => Err(
            BashError::BadCwd { path: copy(cwd), reason: copy("does not exist") },
        ),
        CwdFound::Hidden(error) => {
            let mut reason = copy("could not be inspected: ");
            reason.append(&error);
            Err(BashError::BadCwd { path: copy(cwd), reason })
        },
    }
}

// ---------------------------------------------------------------------------------------------
// The running output

/// What became of the file that holds all of an output.
#[derive(Debug, Clone, PartialEq, Eq)]
pub enum Artifact {
    /// The output still fits in memory.
    Unneeded,
    /// The file, by its path.
    At(String),
    /// It could not be written, for this reason.
    Failed(String),
}

#[verifier::ext_equal]
pub enum ArtifactView {
    Unneeded,
    At(Seq<char>),
    Failed(Seq<char>),
}

impl View for Artifact {
    type V = ArtifactView;

    open spec fn view(&self) -> ArtifactView {
        match *self {
            Artifact::Unneeded => ArtifactView::Unneeded,
            Artifact::At(path) => ArtifactView::At(path@),
            Artifact::Failed(error) => ArtifactView::Failed(error@),
        }
    }
}

/// The running total of a command's output: everything goes to the artifact once the in-memory
/// budget is crossed, and the tail of it is what the model is shown.
#[derive(Debug)]
pub struct Sink {
    /// The tail, bounded by [`MEMORY_BUDGET`].
    text: String,
    artifact: Artifact,
    total_bytes: usize,
    /// Newlines seen, counted as the output arrives. Counting them here rather than re-counting the
    /// retained tail is what lets the footer say "of 40000" when only the last screen is in memory:
    /// a count derived from the buffer would report the size of what is left, not of what ran.
    newlines: usize,
    /// Whether the head was dropped to stay inside the budget.
    head_dropped: bool,
}

#[verifier::ext_equal]
pub struct SinkView {
    pub text: Seq<char>,
    pub artifact: ArtifactView,
    pub total_bytes: int,
    pub newlines: int,
    pub head_dropped: bool,
}

/// How many line feeds a run of bytes holds.
pub open spec fn newline_bytes(bytes: Seq<u8>) -> nat
    decreases bytes.len(),
{
    if bytes.len() == 0 {
        0
    } else {
        newline_bytes(bytes.drop_last()) + if bytes.last() == 10u8 {
            1nat
        } else {
            0nat
        }
    }
}

/// How many characters have to go from the front, from `k` on, for the rest to fit the budget.
pub open spec fn overflow(s: Seq<char>, k: int) -> int
    decreases s.len() - k,
{
    if 0 <= k < s.len() && byte_len(s.skip(k)) > MEMORY_BUDGET {
        overflow(s, k + 1)
    } else {
        k
    }
}

impl SinkView {
    pub open spec fn empty() -> SinkView {
        SinkView {
            text: Seq::empty(),
            artifact: ArtifactView::Unneeded,
            total_bytes: 0,
            newlines: 0,
            head_dropped: false,
        }
    }

    /// What is kept fits the budget; nothing was dropped while there was no need for a file; and
    /// the counts leave room for one line more.
    pub open spec fn wf(self) -> bool {
        &&& byte_len(self.text) <= MEMORY_BUDGET
        &&& self.artifact is Unneeded ==> !self.head_dropped
        &&& 0 <= self.newlines <= self.total_bytes <= usize::MAX - 2
    }

    /// Whether what arrives has to go to a file that is not there yet.
    pub open spec fn must_spill(self, chunk: Seq<u8>) -> bool {
        self.artifact is Unneeded && byte_len(self.text) + byte_len(lossy(chunk)) > MEMORY_BUDGET
    }

    /// What the making of the file came to, when one had to be made.
    pub open spec fn artifact_after(
        self,
        chunk: Seq<u8>,
        made: Result<Seq<char>, Seq<char>>,
    ) -> ArtifactView {
        if self.must_spill(chunk) {
            match made {
                Ok(path) => ArtifactView::At(path),
                Err(error) => ArtifactView::Failed(error),
            }
        } else {
            self.artifact
        }
    }

    /// What goes to the file now: all that was kept so far when the file is new, and what arrived.
    pub open spec fn written(
        self,
        chunk: Seq<u8>,
        made: Result<Seq<char>, Seq<char>>,
    ) -> Seq<char> {
        match self.artifact_after(chunk, made) {
            ArtifactView::At(_) => if self.must_spill(chunk) {
                self.text + lossy(chunk)
            } else {
                lossy(chunk)
            },
            _ => Seq::empty(),
        }
    }

    /// The output once a chunk has come in: the tail that fits the budget is kept.
    pub open spec fn after(self, chunk: Seq<u8>, made: Result<Seq<char>, Seq<char>>) -> SinkView {
        let grown = self.text + lossy(chunk);
        SinkView {
            text: grown.skip(overflow(grown, 0)),
            artifact: self.artifact_after(chunk, made),
            total_bytes: self.total_bytes + chunk.len(),
            newlines: self.newlines + newline_bytes(chunk),
            head_dropped: self.head_dropped || byte_len(grown) > MEMORY_BUDGET,
        }
    }

    /// How many lines the whole run had.
    pub open spec fn total_lines(self) -> int {
        self.newlines + if self.text.len() > 0 && self.text.last() != '\n' {
            1int
        } else {
            0
        }
    }

    /// What the model is shown: the tail of the output with long lines capped, and the counts of
    /// the whole run.
    pub open spec fn shown(self) -> TruncatedView {
        let end = tail_view(
            cap_columns_view(self.text, MAX_COLUMN as int),
            MAX_LINES as int,
            MAX_BYTES as int,
        );
        let total = self.total_lines();
        let count = end.line_count();
        TruncatedView {
            first_line: if total >= count {
                total - count + 1
            } else {
                1
            },
            last_line: total,
            total_lines: total,
            complete: end.complete && !self.head_dropped,
            ..end
        }
    }

    pub open spec fn artifact_path(self) -> Option<Seq<char>> {
        match self.artifact {
            ArtifactView::At(path) => Some(path),
            _ => None,
        }
    }

    pub open spec fn artifact_fault(self) -> Option<Seq<char>> {
        match self.artifact {
            ArtifactView::Failed(error) => Some(error),
            _ => None,
        }
    }
}

impl View for Sink {
    type V = SinkView;

    closed spec fn view(&self) -> SinkView {
        SinkView {
            text: self.text@,
            artifact: self.artifact@,
            total_bytes: self.total_bytes as int,
            newlines: self.newlines as int,
            head_dropped: self.head_dropped,
        }
    }
}

/// What each of the two results of making a file says.
pub open spec fn made_view(made: Result<String, String>) -> Result<Seq<char>, Seq<char>> {
    match made {
        Ok(path) => Ok(path@),
        Err(error) => Err(error@),
    }
}

fn count_newlines(bytes: &[u8]) -> (out: usize)
    ensures
        out == newline_bytes(bytes@),
        out <= bytes@.len(),
{
    let mut out: usize = 0;
    let mut i: usize = 0;
    assert(bytes@.take(0) =~= Seq::<u8>::empty());
    while i < bytes.len()
        invariant
            i <= bytes@.len(),
            out == newline_bytes(bytes@.take(i as int)),
            out <= i,
        decreases bytes@.len() - i,
    {
        assert(bytes@.take(i + 1).drop_last() =~= bytes@.take(i as int));
        if bytes[i] == 10u8 {
            out += 1;
        }
        i += 1;
    }
    assert(bytes@.take(bytes@.len() as int) =~= bytes@);
    out
}

proof fn lemma_overflow(s: Seq<char>, k: int)
    requires
        0 <= k <= s.len(),
    ensures
        k <= overflow(s, k) <= s.len(),
        byte_len(s.skip(overflow(s, k))) <= MEMORY_BUDGET,
        byte_len(s.skip(k)) <= MEMORY_BUDGET ==> overflow(s, k) == k,
    decreases s.len() - k,
{
    if k < s.len() {
        if byte_len(s.skip(k)) > MEMORY_BUDGET {
            lemma_overflow(s, k + 1);
        }
    } else {
        assert(s.skip(k) =~= Seq::<char>::empty());
        lemma_byte_len_chars(s.skip(k));
    }
}

proof fn lemma_overflow_is(s: Seq<char>, k: int, from: int)
    requires
        0 <= from <= k <= s.len(),
        byte_len(s.skip(k)) <= MEMORY_BUDGET,
        forall|j: int| from <= j < k ==> byte_len(#[trigger] s.skip(j)) > MEMORY_BUDGET,
    ensures
        overflow(s, from) == k,
    decreases k - from,
{
    if from < k {
        assert(byte_len(s.skip(from)) > MEMORY_BUDGET);
        lemma_overflow_is(s, k, from + 1);
    }
}

/// The tail of a text that fits the budget, and whether anything had to go. The cut is made where a
/// character begins.
fn fit(text: String) -> (out: (String, bool))
    ensures
        out.0@ == text@.skip(overflow(text@, 0)),
        out.1 == (byte_len(text@) > MEMORY_BUDGET),
{
    let size: usize = size_of(&text);
    assert(text@.skip(0) =~= text@);
    if size <= MEMORY_BUDGET {
        return (text, false);
    }
    let least: usize = size - MEMORY_BUDGET;
    let mut cut: usize = least;
    while cut < size && !text.as_str().is_char_boundary(cut)
        invariant
            size == byte_len(text@),
            least <= cut <= size,
            forall|at: int| least <= at < cut ==> !is_char_boundary(encode_utf8(text@), at),
        decreases size - cut,
    {
        cut += 1;
    }
    proof {
        encode_utf8_valid_utf8(text@);
        is_char_boundary_start_end_of_seq(encode_utf8(text@));
    }
    let rest = text.as_str().split_at(cut).1;
    proof {
        lemma_boundary(text@, cut as int);
        let k = choose|k: int| 0 <= k <= text@.len() && byte_len(#[trigger] text@.take(k)) == cut;
        lemma_bytes_after(text@, k, rest@);
        assert forall|j: int| 0 <= j <= k implies byte_len(#[trigger] text@.skip(j)) == size
            - byte_len(text@.take(j)) by {
            lemma_byte_len_add(text@.take(j), text@.skip(j));
            assert(text@.take(j) + text@.skip(j) =~= text@);
        }
        assert forall|j: int| 0 <= j < k implies byte_len(#[trigger] text@.skip(j))
            > MEMORY_BUDGET by {
            let at = byte_len(text@.take(j)) as int;
            lemma_boundary(text@, at);
            assert(is_char_boundary(encode_utf8(text@), at));
            let between = text@.subrange(j, k);
            assert(text@.take(j) + between =~= text@.take(k));
            lemma_byte_len_add(text@.take(j), between);
            lemma_byte_len_chars(between);
            assert(at < cut);
        }
        lemma_overflow_is(text@, k, 0);
    }
    (copy(rest), true)
}

impl Default for Sink {
    fn default() -> (out: Self)
        ensures
            out@ == SinkView::empty(),
            out@.wf(),
    {
        proof {
            lemma_byte_len_chars(Seq::<char>::empty());
        }
        let text = String::new();
        assert(text@ =~= Seq::<char>::empty());
        Sink {
            text,
            artifact: Artifact::Unneeded,
            total_bytes: 0,
            newlines: 0,
            head_dropped: false,
        }
    }
}

impl Sink {
    #[verifier::type_invariant]
    pub closed spec fn sound(self) -> bool {
        self@.wf()
    }

    pub fn new() -> (out: Self)
        ensures
            out@ == SinkView::empty(),
            out@.wf(),
    {
        Sink::default()
    }

    /// How many bytes have come in so far.
    pub fn total_bytes(&self) -> (out: usize)
        ensures
            out == self@.total_bytes,
    {
        self.total_bytes
    }

    /// Whether what arrives has to go to a file that is not there yet.
    ///
    /// Once the budget is crossed, the whole thing goes to a file and keeps growing there: the model
    /// gets the tail, and everyone gets the rest by name. The caller makes the file and says in
    /// [`Sink::push`] what came of it.
    pub fn wants_artifact(&self, chunk: &[u8]) -> (out: bool)
        ensures
            out == self@.must_spill(chunk@),
    {
        proof {
            use_type_invariant(self);
        }
        match self.artifact {
            Artifact::Unneeded => {
                let words = lossy_text(chunk);
                let held: usize = size_of(&self.text);
                size_of(&words) > MEMORY_BUDGET - held
            },
            _ => false,
        }
    }

    /// Take in a chunk of output, and say what to write to the artifact now.
    ///
    /// `made` is what came of making the artifact; it is read only where [`Sink::wants_artifact`]
    /// asked for one. The head that is dropped from memory has already been written by then.
    pub fn push(&mut self, chunk: &[u8], made: Result<String, String>) -> (out: String)
        requires
            old(self)@.total_bytes + chunk@.len() <= usize::MAX - 2,
        ensures
            final(self)@ == old(self)@.after(chunk@, made_view(made)),
            out@ == old(self)@.written(chunk@, made_view(made)),
            final(self)@.wf(),
    {
        proof {
            use_type_invariant(&*self);
            lemma_overflow(self.text@ + lossy(chunk@), 0);
            lemma_byte_len_add(self.text@, lossy(chunk@));
        }
        let words = lossy_text(chunk);
        let spill = self.wants_artifact(chunk);
        let ghost before = self@;
        let artifact: Artifact = if spill {
            match made {
                Ok(path) => Artifact::At(path),
                Err(error) => Artifact::Failed(error),
            }
        } else {
            match &self.artifact {
                Artifact::Unneeded => Artifact::Unneeded,
                Artifact::At(path) => Artifact::At(copy(path)),
                Artifact::Failed(error) => Artifact::Failed(copy(error)),
            }
        };
        let mut grown = String::new();
        proof {
            lemma_byte_len_chars(grown@);
        }
        std::mem::swap(&mut self.text, &mut grown);
        grown.append(&words);
        let written: String = match &artifact {
            Artifact::At(_) => if spill {
                copy(&grown)
            } else {
                words
            },
            _ => String::new(),
        };
        assert(written@ =~= before.written(chunk@, made_view(made)));
        let (text, dropped) = fit(grown);
        let total_bytes: usize = self.total_bytes + chunk.len();
        let newlines: usize = self.newlines + count_newlines(chunk);
        let head_dropped: bool = self.head_dropped || dropped;
        *self = Sink { text, artifact, total_bytes, newlines, head_dropped };
        written
    }

    /// What the model is shown.
    ///
    /// A command's long lines are capped rather than refused: a log with one enormous line should
    /// still show the lines after it. The counts the model is told are the whole run's, not the
    /// retained tail's.
    pub fn tail(&self) -> (out: Truncated)
        ensures
            out@ == self@.shown(),
    {
        proof {
            use_type_invariant(self);
        }
        let capped = cap_columns(&self.text, MAX_COLUMN);
        let end = tail(&capped, MAX_LINES, MAX_BYTES);
        let chars = chars_of(&self.text);
        let open: usize = if chars.len() > 0 && chars[chars.len() - 1] != '\n' {
            1
        } else {
            0
        };
        let total_lines: usize = self.newlines + open;
        proof {
            lemma_tail_count(lines(capped@), 0, MAX_LINES as int, MAX_BYTES as int);
        }
        let count: usize = end.line_count();
        let first_line: usize = if total_lines >= count {
            total_lines - count + 1
        } else {
            1
        };
        Truncated {
            text: end.text,
            first_line,
            last_line: total_lines,
            total_lines,
            complete: end.complete && !self.head_dropped,
            first_line_overflows: end.first_line_overflows,
        }
    }

    /// The file that holds all of the output, once it was too long to keep in memory.
    pub fn artifact(&self) -> (out: Option<String>)
        ensures
            opt_view(out) == self@.artifact_path(),
    {
        match &self.artifact {
            Artifact::At(path) => Some(copy(path)),
            _ => None,
        }
    }

    /// Why that file could not be written.
    pub fn artifact_error(&self) -> (out: Option<String>)
        ensures
            opt_view(out) == self@.artifact_fault(),
    {
        match &self.artifact {
            Artifact::Failed(error) => Some(copy(error)),
            _ => None,
        }
    }
}

/// The file for one run's overflow: a time in milliseconds and a count keep it apart from others.
pub open spec fn artifact_file(dir: Seq<char>, stamp: u64, n: u64) -> Seq<char> {
    joined(dir, "bash-"@ + decimal(stamp as nat) + "-"@ + decimal(n as nat) + ".log"@)
}

/// A unique file name for this run's overflow, without a random-number dependency.
pub fn artifact_path(dir: &str, stamp: u64, n: u64) -> (out: String)
    ensures
        out@ == artifact_file(dir@, stamp, n),
{
    let mut name = copy("bash-");
    name.append(&decimal_of(stamp));
    name.append("-");
    name.append(&decimal_of(n));
    name.append(".log");
    join_path(dir, &name)
}

// ---------------------------------------------------------------------------------------------
// The answer

#[derive(Debug, Clone, PartialEq, Eq)]
pub struct BashOutput {
    /// The command's tail, with long lines capped.
    pub text: Truncated,
    pub exit_code: Option<i32>,
    /// Set when the process died from a signal (128 + this is the shell's report).
    pub signal: Option<i32>,
    pub timed_out: bool,
    /// Set when someone who was watching stopped the command.
    pub interrupted: bool,
    pub cwd: String,
    /// Set when the output was too long to keep in memory: the file holding all of it.
    pub artifact: Option<String>,
    /// Set when that file could not be written, so the model is not left believing the rest is
    /// somewhere it can read.
    pub artifact_error: Option<String>,
    pub clamp_notice: Option<String>,
}

#[verifier::ext_equal]
pub struct BashOutputView {
    pub text: TruncatedView,
    pub exit_code: Option<i32>,
    pub signal: Option<i32>,
    pub timed_out: bool,
    pub interrupted: bool,
    pub cwd: Seq<char>,
    pub artifact: Option<Seq<char>>,
    pub artifact_error: Option<Seq<char>>,
    pub clamp_notice: Option<Seq<char>>,
}

impl View for BashOutput {
    type V = BashOutputView;

    open spec fn view(&self) -> BashOutputView {
        BashOutputView {
            text: self.text@,
            exit_code: self.exit_code,
            signal: self.signal,
            timed_out: self.timed_out,
            interrupted: self.interrupted,
            cwd: self.cwd@,
            artifact: opt_view(self.artifact),
            artifact_error: opt_view(self.artifact_error),
            clamp_notice: opt_view(self.clamp_notice),
        }
    }
}

/// A line that may be missing, as a list.
pub open spec fn note(line: Option<Seq<char>>) -> Seq<Seq<char>> {
    match line {
        Some(line) => seq![line],
        None => Seq::empty(),
    }
}

impl BashOutputView {
    /// Whether this is a failure as far as the model is concerned. Being stopped by whoever was
    /// watching is not one.
    pub open spec fn is_error(self) -> bool {
        !self.interrupted && (self.timed_out || self.signal is Some || (self.exit_code is Some
            && self.exit_code->0 != 0))
    }

    /// How it ended.
    pub open spec fn ending(self) -> Option<Seq<char>> {
        if self.interrupted {
            Some("interrupted"@)
        } else if self.timed_out {
            Some("timed out and was killed"@)
        } else {
            match (self.signal, self.exit_code) {
                (Some(signal), _) => Some("killed by signal "@ + signed_decimal(signal as int)),
                (None, Some(code)) => Some("exit "@ + signed_decimal(code as int)),
                (None, None) => None,
            }
        }
    }

    /// Which lines are shown, when not all of them are.
    pub open spec fn window(self) -> Option<Seq<char>> {
        if self.text.complete {
            None
        } else {
            Some(
                "showing lines "@ + decimal(self.text.first_line as nat) + "-"@ + decimal(
                    self.text.last_line as nat,
                ) + " of "@ + decimal(self.text.total_lines as nat),
            )
        }
    }

    /// Where the rest is.
    pub open spec fn whereabouts(self) -> Option<Seq<char>> {
        match (self.artifact, self.artifact_error) {
            (Some(artifact), _) => Some("full output: "@ + artifact),
            (None, Some(error)) => Some(
                "the rest of the output could not be saved: "@ + error,
            ),
            (None, None) => None,
        }
    }

    pub open spec fn notes(self) -> Seq<Seq<char>> {
        note(self.ending()) + note(self.window()) + note(self.whereabouts()) + note(
            self.clamp_notice,
        )
    }

    /// The answer: the output, then one line about how it ended.
    pub open spec fn rendered(self) -> Seq<char> {
        if self.notes().len() == 0 {
            self.text.text
        } else {
            (if self.text.text.len() > 0 {
                self.text.text.push('\n')
            } else {
                self.text.text
            }) + "["@ + join(self.notes(), " · "@) + "]"@
        }
    }
}

fn add_note(notes: &mut Vec<String>, line: Option<String>)
    ensures
        views(final(notes)@) == views(old(notes)@) + note(opt_view(line)),
{
    match line {
        Some(line) => {
            proof {
                lemma_views_push(notes@, line);
            }
            notes.push(line);
            assert(views(notes@) =~= views(old(notes)@) + seq![line@]);
        },
        None => {
            assert(views(notes@) + Seq::<Seq<char>>::empty() =~= views(notes@));
        },
    }
}

impl BashOutput {
    /// Whether this is a failure as far as the model is concerned.
    pub fn is_error(&self) -> (out: bool)
        ensures
            out == self@.is_error(),
    {
        let failed: bool = match self.exit_code {
            Some(code) => code != 0,
            None => false,
        };
        !self.interrupted && (self.timed_out || self.signal.is_some() || failed)
    }

    fn ending(&self) -> (out: Option<String>)
        ensures
            opt_view(out) == self@.ending(),
    {
        if self.interrupted {
            return Some(copy("interrupted"));
        }
        if self.timed_out {
            return Some(copy("timed out and was killed"));
        }
        match (self.signal, self.exit_code) {
            (Some(signal), _) => {
                let mut line = copy("killed by signal ");
                line.append(&signed_decimal_of(signal));
                Some(line)
            },
            (None, Some(code)) => {
                let mut line = copy("exit ");
                line.append(&signed_decimal_of(code));
                Some(line)
            },
            (None, None) => None,
        }
    }

    fn window(&self) -> (out: Option<String>)
        ensures
            opt_view(out) == self@.window(),
    {
        if self.text.complete {
            return None;
        }
        let mut line = copy("showing lines ");
        line.append(&count_of(self.text.first_line));
        line.append("-");
        line.append(&count_of(self.text.last_line));
        line.append(" of ");
        line.append(&count_of(self.text.total_lines));
        Some(line)
    }

    fn whereabouts(&self) -> (out: Option<String>)
        ensures
            opt_view(out) == self@.whereabouts(),
    {
        match &self.artifact {
            Some(artifact) => {
                let mut line = copy("full output: ");
                line.append(artifact);
                Some(line)
            },
            None => match &self.artifact_error {
                Some(error) => {
                    let mut line = copy("the rest of the output could not be saved: ");
                    line.append(error);
                    Some(line)
                },
                None => None,
            },
        }
    }

    /// The answer: the output, then one line about how it ended.
    pub fn render(&self) -> (out: String)
        ensures
            out@ == self@.rendered(),
    {
        let mut notes: Vec<String> = Vec::new();
        assert(views(notes@) =~= Seq::<Seq<char>>::empty());
        add_note(&mut notes, self.ending());
        add_note(&mut notes, self.window());
        add_note(&mut notes, self.whereabouts());
        add_note(&mut notes, copy_opt(&self.clamp_notice));
        assert(views(notes@) =~= self@.notes());
        let mut out = copy(&self.text.text);
        if notes.len() > 0 {
            if !out.as_str().is_empty() {
                out.push('\n');
            }
            out.append("[");
            out.append(&join_of(notes.as_slice(), " · "));
            out.append("]");
        }
        out
    }
}

/// How a command came to its end.
#[derive(Debug, Clone, Copy, PartialEq, Eq, Structural)]
pub enum Ending {
    /// It ended by itself, with a code or by a signal.
    Exited { code: Option<i32>, signal: Option<i32> },
    /// Its deadline passed, and its whole process group was killed.
    TimedOut,
    /// Someone who was watching stopped it, and its whole process group was killed.
    Interrupted,
}

/// The signal a process group is killed with. Not one that can be ignored: a test run that ignores
/// a polite request must still die before the tool returns.
pub const KILLED: i32 = 9;

/// What a finished command is answered with.
pub open spec fn answer_of(
    sink: SinkView,
    ending: Ending,
    timeout: Timeout,
    cwd: Seq<char>,
) -> BashOutputView {
    BashOutputView {
        text: sink.shown(),
        exit_code: match ending {
            Ending::Exited { code, .. } => code,
            _ => None,
        },
        signal: match ending {
            Ending::Exited { signal, .. } => signal,
            _ => Some(KILLED),
        },
        timed_out: ending == Ending::TimedOut,
        interrupted: ending == Ending::Interrupted,
        cwd,
        artifact: sink.artifact_path(),
        artifact_error: sink.artifact_fault(),
        clamp_notice: clamp_line(timeout),
    }
}

/// What a command is answered with, once it has ended and its output has been read.
pub fn bash(sink: &Sink, ending: Ending, timeout: Timeout, cwd: &str) -> (out: BashOutput)
    ensures
        out@ == answer_of(sink@, ending, timeout, cwd@),
{
    let (exit_code, signal): (Option<i32>, Option<i32>) = match ending {
        Ending::Exited { code, signal } => (code, signal),
        _ => (None, Some(KILLED)),
    };
    BashOutput {
        text: sink.tail(),
        exit_code,
        signal,
        timed_out: ending == Ending::TimedOut,
        interrupted: ending == Ending::Interrupted,
        cwd: copy(cwd),
        artifact: sink.artifact(),
        artifact_error: sink.artifact_error(),
        clamp_notice: clamp_notice(timeout),
    }
}

// ---------------------------------------------------------------------------------------------
// Laws

/// A deadline is never shorter than the floor nor longer than the ceiling, `0` is the only request
/// for none, and a request that was overruled is always said out loud.
pub proof fn law_the_timeout_table(requested: Option<u64>)
    ensures
        timeout_for(requested).secs is None <==> requested == Some(0u64),
        timeout_for(requested).secs is Some ==> MIN_TIMEOUT_SECS <= timeout_for(requested).secs->0
            <= MAX_TIMEOUT_SECS,
        ({
            let overruled = requested is Some && requested != Some(0u64) && timeout_for(
                requested,
            ).secs != requested;
            overruled <==> clamp_line(timeout_for(requested)) is Some
        }),
{
}

/// Taking in output keeps the sink sound: what is in memory never outgrows the budget.
pub proof fn law_memory_is_bounded(
    sink: SinkView,
    chunk: Seq<u8>,
    made: Result<Seq<char>, Seq<char>>,
)
    requires
        sink.wf(),
        sink.total_bytes + chunk.len() <= usize::MAX - 2,
    ensures
        sink.after(chunk, made).wf(),
{
    let grown = sink.text + lossy(chunk);
    lemma_overflow(grown, 0);
    crate::text::lemma_byte_len_add(sink.text, lossy(chunk));
    lemma_newline_bytes(chunk);
}

proof fn lemma_newline_bytes(bytes: Seq<u8>)
    ensures
        newline_bytes(bytes) <= bytes.len(),
    decreases bytes.len(),
{
    if bytes.len() > 0 {
        lemma_newline_bytes(bytes.drop_last());
    }
}

/// A run of output: each chunk, and what making the artifact came to if it was asked for then.
pub open spec fn sink_run(chunks: Seq<(Seq<u8>, Result<Seq<char>, Seq<char>>)>) -> SinkView
    decreases chunks.len(),
{
    if chunks.len() == 0 {
        SinkView::empty()
    } else {
        sink_run(chunks.drop_last()).after(chunks.last().0, chunks.last().1)
    }
}

/// Everything a run printed.
pub open spec fn printed(chunks: Seq<(Seq<u8>, Result<Seq<char>, Seq<char>>)>) -> Seq<char>
    decreases chunks.len(),
{
    if chunks.len() == 0 {
        Seq::empty()
    } else {
        printed(chunks.drop_last()) + lossy(chunks.last().0)
    }
}

/// Everything a run was told to write to its artifact.
pub open spec fn saved(chunks: Seq<(Seq<u8>, Result<Seq<char>, Seq<char>>)>) -> Seq<char>
    decreases chunks.len(),
{
    if chunks.len() == 0 {
        Seq::empty()
    } else {
        saved(chunks.drop_last()) + sink_run(chunks.drop_last()).written(
            chunks.last().0,
            chunks.last().1,
        )
    }
}

/// Nothing is lost: as long as there is no artifact everything printed is in memory, and once there
/// is one it holds everything printed, from the first character on.
pub proof fn law_nothing_is_lost(chunks: Seq<(Seq<u8>, Result<Seq<char>, Seq<char>>)>)
    ensures
        sink_run(chunks).artifact is Unneeded ==> sink_run(chunks).text == printed(chunks)
            && !sink_run(chunks).head_dropped,
        sink_run(chunks).artifact is At ==> saved(chunks) == printed(chunks),
        sink_run(chunks).artifact !is At ==> saved(chunks).len() == 0,
    decreases chunks.len(),
{
    if chunks.len() > 0 {
        let before = chunks.drop_last();
        law_nothing_is_lost(before);
        let sink = sink_run(before);
        let (chunk, made) = chunks.last();
        let grown = sink.text + lossy(chunk);
        crate::text::lemma_byte_len_add(sink.text, lossy(chunk));
        lemma_overflow(grown, 0);
        assert(grown.skip(0) =~= grown);
        assert(Seq::<char>::empty() + grown =~= grown);
        if sink.artifact is Unneeded {
            assert(saved(before) =~= Seq::<char>::empty());
            assert(saved(chunks) =~= sink.written(chunk, made));
        }
        if sink_run(chunks).artifact !is At {
            assert(saved(chunks).len() == 0);
        }
    }
}

/// The counts are the whole run's: lines that are no longer in memory are still counted.
pub proof fn law_every_line_is_counted(chunks: Seq<(Seq<u8>, Result<Seq<char>, Seq<char>>)>)
    ensures
        sink_run(chunks).newlines == bytes_newlines(chunks),
    decreases chunks.len(),
{
    if chunks.len() > 0 {
        law_every_line_is_counted(chunks.drop_last());
    }
}

/// How many line feeds a run printed.
pub open spec fn bytes_newlines(chunks: Seq<(Seq<u8>, Result<Seq<char>, Seq<char>>)>) -> nat
    decreases chunks.len(),
{
    if chunks.len() == 0 {
        0
    } else {
        bytes_newlines(chunks.drop_last()) + newline_bytes(chunks.last().0)
    }
}

/// An output whose head was dropped never reads as the whole of it.
pub proof fn law_a_dropped_head_is_said(sink: SinkView, ending: Ending, timeout: Timeout, cwd: Seq<char>)
    requires
        sink.head_dropped,
    ensures
        answer_of(sink, ending, timeout, cwd).window() is Some,
{
}

/// A deadline is the one that was asked for where it is within the bounds, the nearest bound where it
/// is not, and the default where none was asked for. What was overruled is named with what was used
/// instead.
pub proof fn law_a_deadline_is_the_nearest_allowed(requested: Option<u64>)
    ensures
        requested is None ==> timeout_for(requested) == (Timeout {
            secs: Some(300),
            clamped: None,
        }),
        requested matches Some(secs) ==> (1 <= secs <= 3600 ==> timeout_for(requested) == (Timeout {
            secs: Some(secs),
            clamped: None,
        })),
        requested matches Some(secs) ==> (secs > 3600 ==> timeout_for(requested).secs == Some(
            3600u64,
        ) && clamp_line(timeout_for(requested)) == Some(
            "timeout clamped to "@ + decimal(3600) + "s (asked for "@ + decimal(secs as nat)
                + "s)"@,
        )),
{
}

/// Whether a text is a bare name: neither white space nor a quote stands at either of its ends.
pub open spec fn bare(s: Seq<char>) -> bool {
    &&& s.len() > 0
    &&& !white(s[0]) && s[0] != '"' && s[0] != '\''
    &&& !white(s.last()) && s.last() != '"' && s.last() != '\''
}

/// The white space around a directory and the quotes it is in are no part of it.
pub proof fn law_a_directory_is_taken_out_of_its_quotes(
    a: Seq<char>,
    dir: Seq<char>,
    b: Seq<char>,
)
    requires
        blank(a),
        blank(b),
        bare(dir),
    ensures
        unquoted(a + dir + b) == dir,
        unquoted(a + (seq!['"'] + dir + seq!['"']) + b) == dir,
        unquoted(a + (seq!['\''] + dir + seq!['\'']) + b) == dir,
{
    let none = Seq::<char>::empty();
    law_trimming_undoes_padding(a, dir, b);
    law_trimming_undoes_padding(none, dir, none);
    assert(none + dir + none =~= dir);
    let double = seq!['"'] + dir + seq!['"'];
    let single = seq!['\''] + dir + seq!['\''];
    law_trimming_undoes_padding(a, double, b);
    law_trimming_undoes_padding(a, single, b);
    assert(double.drop_first() =~= dir + seq!['"']);
    assert((dir + seq!['"']).drop_last() =~= dir);
    reveal_with_fuel(strip_front, 2);
    reveal_with_fuel(strip_back, 2);
    assert((dir + seq!['"'])[0] == dir[0]);
    assert(strip_front(double, '"') == dir + seq!['"']);
    assert(strip_back(dir + seq!['"'], '"') == dir);
    assert(single.drop_first() =~= dir + seq!['\'']);
    assert((dir + seq!['\'']).drop_last() =~= dir);
    assert((dir + seq!['\''])[0] == dir[0]);
    assert(strip_front(single, '"') == single);
    assert(strip_back(single, '"') == single);
    assert(strip_front(single, '\'') == dir + seq!['\'']);
    assert(strip_back(dir + seq!['\''], '\'') == dir);
}

/// A leading `cd` is taken out of a command: its directory is what stands before the first `&&`, and
/// what is run is the rest behind it.
pub proof fn law_a_leading_cd_is_taken_out(
    front: Seq<char>,
    dir: Seq<char>,
    gap: Seq<char>,
    rest: Seq<char>,
)
    requires
        blank(front),
        blank(gap),
        unquoted(dir).len() > 0,
        !dir.contains('&'),
        rest.len() == 0 || !white(rest[0]),
    ensures
        leading_cd(front + "cd "@ + dir + "&&"@ + gap + rest) == Some((unquoted(dir), rest)),
        leading_cd(front + "cd "@ + dir) == Some((unquoted(dir), Seq::<char>::empty())),
{
    reveal_strlit("cd ");
    reveal_strlit("&&");
    let behind = dir + "&&"@ + gap + rest;
    let whole = front + "cd "@ + dir + "&&"@ + gap + rest;
    let short = front + "cd "@ + dir;
    lemma_starts(front, "cd "@ + behind);
    lemma_starts(front, "cd "@ + dir);
    assert(whole =~= front + ("cd "@ + behind));
    assert(short =~= front + ("cd "@ + dir));
    assert(("cd "@ + behind).take(3) =~= "cd "@);
    assert(("cd "@ + dir).take(3) =~= "cd "@);
    assert(("cd "@ + behind).skip(3) =~= behind);
    assert(("cd "@ + dir).skip(3) =~= dir);
    lemma_find_from(behind, "&&"@, 0);
    assert(behind.subrange(dir.len() as int, dir.len() as int + 2) =~= "&&"@);
    assert(stands_at(behind, "&&"@, dir.len() as int));
    let at = find_from(behind, "&&"@, 0)->0;
    assert(at == dir.len()) by {
        if at < dir.len() {
            assert(behind.subrange(at, at + 2)[0] == '&');
            assert(behind[at] == dir[at]);
            assert(dir.contains(dir[at]));
        }
    }
    assert(behind.take(at) =~= dir);
    assert(behind.skip(at + 2) =~= gap + rest);
    lemma_gap(gap, rest);
    lemma_find_from(dir, "&&"@, 0);
    if let Some(at) = find_from(dir, "&&"@, 0) {
        assert(dir.subrange(at, at + 2)[0] == '&');
        assert(dir.contains(dir[at]));
    }
}

/// White space in front of a text that starts with none of it.
proof fn lemma_starts(front: Seq<char>, s: Seq<char>)
    requires
        blank(front),
        s.len() > 0,
        !white(s[0]),
    ensures
        trim_start(front + s) == s,
    decreases front.len(),
{
    let whole = front + s;
    if front.len() > 0 {
        assert(whole[0] == front[0]);
        assert(whole.drop_first() =~= front.drop_first() + s);
        assert forall|i: int| 0 <= i < front.drop_first().len() implies white(
            #[trigger] front.drop_first()[i],
        ) by {
            assert(front.drop_first()[i] == front[i + 1]);
        }
        lemma_starts(front.drop_first(), s);
    } else {
        assert(whole =~= s);
    }
}

proof fn lemma_gap(gap: Seq<char>, rest: Seq<char>)
    requires
        blank(gap),
        rest.len() == 0 || !white(rest[0]),
    ensures
        trim_start(gap + rest) == rest,
{
    if rest.len() > 0 {
        lemma_starts(gap, rest);
    } else {
        assert(gap + rest =~= gap);
        crate::text::lemma_trim_blank(gap);
        assert(trim_start(gap) =~= rest);
    }
}

/// A command that starts otherwise than with `cd` and a space keeps all of its text.
pub proof fn law_other_commands_are_left_alone(front: Seq<char>, command: Seq<char>)
    requires
        blank(front),
        command.len() > 0,
        !white(command[0]),
        !("cd "@.is_prefix_of(command)),
    ensures
        leading_cd(front + command) is None,
{
    lemma_starts(front, command);
    if begins(command, "cd "@) {
        assert("cd "@.is_prefix_of(command));
    }
}

/// An explicit directory wins and leaves the command alone; a leading `cd` counts as one that was
/// said; with neither the command runs as it is where the session is. A relative directory is below
/// the session's, an absolute one stands on its own.
pub proof fn law_where_a_command_runs(
    args: BashArgsView,
    session: Seq<char>,
    home: Option<Seq<char>>,
)
    ensures
        args.cwd is Some ==> placed_command(args, session, home).0 == args.command,
        args.cwd is None ==> match leading_cd(args.command) {
            Some((dir, rest)) => placed_command(args, session, home) == placed_command(
                BashArgsView { command: rest, cwd: Some(dir), ..args },
                session,
                home,
            ),
            None => placed_command(args, session, home) == (args.command, session),
        },
        args.cwd matches Some(dir) ==> {
            let place = placed_command(args, session, home).1;
            let expanded = tilde_expanded(dir, home);
            &&& expanded.len() > 0 && expanded[0] == '/' ==> place == expanded
            &&& expanded.len() == 0 || expanded[0] != '/' ==> place == joined(session, expanded)
        },
{
}

/// The newest output is kept: what is in memory is the end of all that was there and came in, as
/// much of it as fits the budget, and it is known whether anything had to go. Every byte and every
/// line feed is counted.
pub proof fn law_the_newest_output_is_kept(
    sink: SinkView,
    chunk: Seq<u8>,
    made: Result<Seq<char>, Seq<char>>,
)
    ensures
        ({
            let now = sink.after(chunk, made);
            let grown = sink.text + lossy(chunk);
            let cut = grown.len() - now.text.len();
            &&& 0 <= cut
            &&& now.text == grown.skip(cut)
            &&& byte_len(now.text) <= MEMORY_BUDGET
            &&& cut > 0 ==> byte_len(grown.skip(cut - 1)) > MEMORY_BUDGET
            &&& now.head_dropped == (sink.head_dropped || cut > 0)
            &&& now.total_bytes == sink.total_bytes + chunk.len()
            &&& now.newlines == sink.newlines + chunk.filter(|b: u8| b == 10).len()
        }),
{
    let grown = sink.text + lossy(chunk);
    lemma_overflow(grown, 0);
    lemma_overflow_least(grown, 0);
    assert(grown.skip(0) =~= grown);
    lemma_newline_filter(chunk);
}

proof fn lemma_overflow_least(s: Seq<char>, k: int)
    requires
        0 <= k <= s.len(),
    ensures
        overflow(s, k) > k ==> byte_len(s.skip(overflow(s, k) - 1)) > MEMORY_BUDGET,
    decreases s.len() - k,
{
    if k < s.len() && byte_len(s.skip(k)) > MEMORY_BUDGET {
        lemma_overflow_least(s, k + 1);
        lemma_overflow(s, k + 1);
    }
}

proof fn lemma_newline_filter(bytes: Seq<u8>)
    ensures
        newline_bytes(bytes) == bytes.filter(|b: u8| b == 10).len(),
    decreases bytes.len(),
{
    reveal(Seq::filter);
    if bytes.len() > 0 {
        lemma_newline_filter(bytes.drop_last());
    }
}

/// A file is asked for once, when the output first outgrows the budget, and what came of making it
/// stands from then on.
pub proof fn law_an_artifact_is_made_once(
    sink: SinkView,
    chunk: Seq<u8>,
    made: Result<Seq<char>, Seq<char>>,
)
    ensures
        ({
            let now = sink.after(chunk, made).artifact;
            &&& !(sink.artifact is Unneeded) ==> now == sink.artifact
            &&& sink.artifact is Unneeded && byte_len(sink.text + lossy(chunk)) <= MEMORY_BUDGET
                ==> now is Unneeded
            &&& sink.artifact is Unneeded && byte_len(sink.text + lossy(chunk)) > MEMORY_BUDGET
                ==> match made {
                Ok(path) => now == ArtifactView::At(path),
                Err(error) => now == ArtifactView::Failed(error),
            }
        }),
{
    lemma_byte_len_add(sink.text, lossy(chunk));
}

/// What is shown is the end of what is in memory, with its long lines capped, and its numbers are
/// those of the whole run: it ends with the run's last line, whose number is how many line feeds
/// came, and one more where something stands behind the last.
pub proof fn law_the_answer_shows_the_end_of_the_run(sink: SinkView)
    ensures
        ({
            let shown = sink.shown();
            let end = tail_view(
                cap_columns_view(sink.text, MAX_COLUMN as int),
                MAX_LINES as int,
                MAX_BYTES as int,
            );
            &&& shown.text == end.text
            &&& shown.last_line == shown.total_lines
            &&& sink.text.len() == 0 || sink.text.last() == '\n' ==> shown.total_lines
                == sink.newlines
            &&& sink.text.len() > 0 && sink.text.last() != '\n' ==> shown.total_lines
                == sink.newlines + 1
            &&& end.line_count() <= shown.total_lines ==> shown.last_line - shown.first_line + 1
                == end.line_count()
            &&& end.line_count() > shown.total_lines ==> shown.first_line == 1
            &&& shown.complete <==> end.complete && !sink.head_dropped
        }),
{
}

/// How a command ended decides whether it failed: one that exited with zero, or was stopped by
/// whoever was watching, did not; one that exited otherwise, died from a signal or ran out of time
/// did. Each says which it was.
pub proof fn law_how_it_ended_decides(
    sink: SinkView,
    ending: Ending,
    timeout: Timeout,
    cwd: Seq<char>,
)
    ensures
        ({
            let answer = answer_of(sink, ending, timeout, cwd);
            match ending {
                Ending::Exited { code: Some(code), signal: None } => {
                    &&& answer.is_error() <==> code != 0
                    &&& answer.ending() == Some("exit "@ + signed_decimal(code as int))
                },
                Ending::Exited { code: _, signal: Some(signal) } => {
                    &&& answer.is_error()
                    &&& answer.ending() == Some(
                        "killed by signal "@ + signed_decimal(signal as int),
                    )
                },
                Ending::Exited { code: None, signal: None } => {
                    &&& !answer.is_error()
                    &&& answer.ending() is None
                },
                Ending::TimedOut => {
                    &&& answer.is_error()
                    &&& answer.ending() == Some("timed out and was killed"@)
                    &&& answer.signal == Some(9i32)
                },
                Ending::Interrupted => {
                    &&& !answer.is_error()
                    &&& answer.ending() == Some("interrupted"@)
                    &&& answer.signal == Some(9i32)
                },
            }
        }),
        ({
            let answer = answer_of(sink, ending, timeout, cwd);
            &&& answer.cwd == cwd
            &&& answer.artifact is Some <==> sink.artifact is At
            &&& answer.artifact_error is Some <==> sink.artifact is Failed
            &&& sink.artifact matches ArtifactView::At(path) ==> answer.whereabouts() == Some(
                "full output: "@ + path,
            )
            &&& sink.artifact matches ArtifactView::Failed(error) ==> answer.whereabouts() == Some(
                "the rest of the output could not be saved: "@ + error,
            )
        }),
{
}

/// An answer is the output and, behind it in brackets, all there is to say about it: how it ended,
/// which lines these are where some are missing, where the rest is, and what was overruled, in that
/// order.
pub proof fn law_an_answer_says_all_it_has_to(answer: BashOutputView, line: Seq<char>)
    ensures
        answer.notes().contains(line) <==> answer.ending() == Some(line) || answer.window() == Some(
            line,
        ) || answer.whereabouts() == Some(line) || answer.clamp_notice == Some(line),
        answer.ending() matches Some(how) ==> answer.notes()[0] == how,
        answer.clamp_notice matches Some(overruled) ==> answer.notes().last() == overruled,
        answer.window() is Some <==> !answer.text.complete,
        answer.notes().len() == 0 ==> answer.rendered() == answer.text.text,
        answer.notes().len() > 0 && answer.text.text.len() > 0 ==> answer.rendered()
            == answer.text.text + seq!['\n'] + "["@ + join(answer.notes(), " · "@) + "]"@,
        answer.notes().len() > 0 && answer.text.text.len() == 0 ==> answer.rendered() == "["@
            + join(answer.notes(), " · "@) + "]"@,
{
    lemma_note(answer.ending(), line);
    lemma_note(answer.window(), line);
    lemma_note(answer.whereabouts(), line);
    lemma_note(answer.clamp_notice, line);
    let a = note(answer.ending());
    let b = note(answer.window());
    let c = note(answer.whereabouts());
    let d = note(answer.clamp_notice);
    lemma_noted(a, b, line);
    lemma_noted(a + b, c, line);
    lemma_noted(a + b + c, d, line);
    let text = answer.text.text;
    assert(text.push('\n') =~= text + seq!['\n']);
    if text.len() == 0 {
        assert(text + "["@ =~= "["@);
    }
}

proof fn lemma_note(one: Option<Seq<char>>, line: Seq<char>)
    ensures
        note(one).contains(line) == (one == Some(line)),
{
    if one is Some {
        assert(note(one)[0] == one->0);
    }
}

proof fn lemma_noted(a: Seq<Seq<char>>, b: Seq<Seq<char>>, line: Seq<char>)
    ensures
        (a + b).contains(line) == (a.contains(line) || b.contains(line)),
{
    if a.contains(line) {
        let i = choose|i: int| 0 <= i < a.len() && a[i] == line;
        assert((a + b)[i] == line);
    }
    if b.contains(line) {
        let i = choose|i: int| 0 <= i < b.len() && b[i] == line;
        assert((a + b)[a.len() + i] == line);
    }
    if (a + b).contains(line) {
        let i = choose|i: int| 0 <= i < (a + b).len() && (a + b)[i] == line;
        if i < a.len() {
            assert(a[i] == line);
        } else {
            assert(b[i - a.len()] == line);
        }
    }
}

/// A command runs in a directory that is there, and nowhere else.
pub proof fn law_a_command_needs_its_directory(found: CwdFound)
    ensures
        cwd_fault(found) is None <==> found is Directory,
        found is Missing ==> cwd_fault(found) == Some("does not exist"@),
        found is NotADirectory ==> cwd_fault(found) == Some("is not a directory"@),
        found matches CwdFound::Hidden(error) ==> cwd_fault(found) == Some(
            "could not be inspected: "@ + error@,
        ),
{
}

/// The model is told to pass a command, and that it may pass a number of seconds from zero on and a
/// directory.
pub proof fn law_a_command_is_all_that_is_asked_for()
    ensures
        bash_schema().get("type"@) == Some(JsonView::Text("object"@)),
        bash_schema().get("required"@) == Some(JsonView::List(seq![JsonView::Text("command"@)])),
        bash_schema().get("properties"@) matches Some(properties) && {
            &&& properties.get_in("command"@, "type"@) == Some(JsonView::Text("string"@))
            &&& properties.get_in("timeout"@, "type"@) == Some(JsonView::Text("integer"@))
            &&& properties.get_in("timeout"@, "minimum"@) == Some(JsonView::Int(0))
            &&& properties.get_in("cwd"@, "type"@) == Some(JsonView::Text("string"@))
        },
{
    reveal_strlit("command");
    reveal_strlit("timeout");
    reveal_strlit("cwd");
    reveal_strlit("type");
    reveal_strlit("minimum");
    assert("command"@.len() == 7 && "timeout"@.len() == 7 && "cwd"@.len() == 3);
    assert("command"@[0] == 'c' && "timeout"@[0] == 't');
    assert("type"@.len() == 4 && "minimum"@.len() == 7);
    let properties = bash_schema()->Object_0[1].1->Object_0;
    let required = seq!["command"@];
    law_a_schema_lists_its_parameters(properties, required);
    assert(bash_schema() == parameters(properties, required));
    assert(names(required)->List_0 =~= seq![JsonView::Text("command"@)]);
    law_a_property_says_its_type(
        "string"@,
        "The command line to run, through `bash -c`. It is not interactive: stdin is closed. Prefer one command that prints what you need over several that each print a little."@,
    );
    law_a_property_says_its_type(
        "string"@,
        "Directory to run in. Relative paths resolve against the session directory. Omitted: a leading `cd <dir> && ` in the command is used."@,
    );
    reveal_with_fuel(JsonView::position, 4);
    assert(properties[0].0 == "command"@ && properties[1].0 == "timeout"@ && properties[2].0
        == "cwd"@);
    let inner = timeout_property()->Object_0;
    assert(inner[0].0 == "type"@ && inner[1].0 == "minimum"@);
}

/// What the model is told of a command that did not start names the directory or the fault.
pub proof fn law_a_command_that_did_not_start_says_why(error: BashErrorView)
    ensures
        match error {
            BashErrorView::BadCwd { path, reason } => error.message() == "working directory "@ + path
                + " "@ + reason,
            BashErrorView::Spawn(fault) => error.message() == "the command could not be started: "@
                + fault,
        },
{
}

/// The file a run's output goes to is named after the time and the count of the run.
pub proof fn law_an_artifact_is_named_after_its_run(dir: Seq<char>, stamp: u64, n: u64)
    requires
        dir.len() > 0,
        dir.last() != '/',
    ensures
        artifact_file(dir, stamp, n) == dir + seq!['/'] + ("bash-"@ + decimal(stamp as nat) + "-"@
            + decimal(n as nat) + ".log"@),
{
    reveal_strlit("bash-");
    let name = "bash-"@ + decimal(stamp as nat) + "-"@ + decimal(n as nat) + ".log"@;
    assert(name[0] == 'b');
    crate::paths::law_a_path_below_another(dir, name);
}

/// An answer that does not show every line says which lines of how many it shows.
pub proof fn law_a_short_output_says_which_lines_it_is(answer: BashOutputView)
    ensures
        answer.text.complete ==> answer.window() is None,
        !answer.text.complete ==> answer.window() == Some(
            "showing lines "@ + decimal(answer.text.first_line as nat) + "-"@ + decimal(
                answer.text.last_line as nat,
            ) + " of "@ + decimal(answer.text.total_lines as nat),
        ),
{
}

} // verus!
