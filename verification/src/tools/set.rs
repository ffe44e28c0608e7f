//! The four tools as the model sees them: one table, and one place a call lands.
//!
//! The descriptions live *here* rather than beside each tool's own docs, and that is deliberate:
//! what the model reads when it is choosing a tool is the prompt, and the thing these paragraphs
//! have to be read as is *contrast*: the model's real choice is `read` against `bash`, or `write`
//! against `edit`, and that choice is made by the differences between them.
//!
//! The order of [`ORDER`] is fixed. The tool table is part of the prompt prefix, and a prefix that
//! reorders itself between turns is a prefix that never hits the provider's cache.
//!
//! A `bash` call is also the one tool call someone can *watch*: the set opens a terminal pane for
//! it, and takes `Ctrl+C` (or the pane being closed) as "stop this call". That is deliberately here
//! rather than in [`super::bash`]: a call's lifetime belongs to whoever started it, and the tool set
//! outlives the call, so the pane is closed by something that is still around when a *later* call
//! needs the room.

use vstd::prelude::*;

use super::bash::{
    bash_schema, BashArgs, BashError, BashErrorView, BashOutput, BashOutputView,
};
use super::edit::{edit_schema, EditArgs, EditError, EditErrorView, EditOutput, EditOutputView};
use super::read::{
    read_schema, ReadArgs, ReadError, ReadErrorView, ReadOutput, ReadOutputView,
};
use super::truncate::TruncatedView;
use super::write::{not_written, write_schema, WriteArgs, WriteError, WriteErrorView, WriteOutput};
use crate::client::{spec_views, ToolSpec, ToolSpecView};
use crate::event::{
    pane_views, Event, FileEvent, FileEventView, PaneEvent, PaneEventView, PtyEvent,
};
use crate::pane::{PaneId, PaneKind, PaneSpec, PaneSpecView};
use crate::paths::{
    absolute, expand_tilde_with, is_absolute, join_path, joined, tilde_expanded,
};
use crate::text::{
    begins, chars_of, copy, count_of, decimal, law_lines_end_with_a_line_feed,
    law_trimming_undoes_padding, lines, lines_of, opt_view, same, signed_decimal,
    signed_decimal_of, string_of, trim, trim_of, views, white,
};

verus! {

/// How many `bash` panes are kept open at once.
///
/// Two: one is this call's, one is the last call's, which is what someone who looks back at "what
/// ran just now" looks at. More would squeeze the layout, which also holds the conversation, the
/// editor and the file tree.
pub const TOOL_PANES: usize = 2;

/// Ctrl+C pressed in a pane is the byte it is in a terminal.
pub const CTRL_C: u8 = 3;

/// The tools, in the order the model is told about them.
pub const ORDER: [&'static str; 4] = ["read", "write", "edit", "bash"];

/// What the model is told about `read`.
pub const READ: &'static str = "Read a file, in whole lines. Give `path`, and optionally `offset` (1-based line to start at) and `limit` (how many lines). The answer says which lines it shows and, when there are more below, which `offset` to ask for next. Use this to see what is in a file before changing it: using `edit` on a file you have not read is how a change lands on text that is no longer there.";

/// What the model is told about `write`.
pub const WRITE: &'static str = "Put a whole file there, creating the directories it needs. `path` and `content`. This is the blunt tool: what it is given is what lands on disk, so it is for a file that should exist in full — a new file, a scratch note, a regenerated listing. To change part of a file that already exists, use `edit`; `write` would replace the whole thing, including the parts you did not look at.";

/// What the model is told about `edit`.
pub const EDIT: &'static str = "Change part of a file by replacing exact text. Give `path` and `edits`: a list of `old_text` and `new_text` pairs. Each `old_text` must appear **exactly once** in the file — if it appears twice, or not at all, the edit is refused and the answer says which. Every edit is matched against the file as it is on disk, not against the file as earlier edits in the same call would leave it, so the order in the list cannot change the result. Keep `old_text` as small as it can be while still being unique, and read the file first.";

/// What the model is told about `bash`.
pub const BASH: &'static str = "Run a shell command. `command`, optionally `timeout` in seconds (default 300, `0` means no deadline) and `cwd` (relative paths resolve against the session directory; a leading `cd <dir> &&` is honoured). This is not an interactive shell — stdin is closed, so a program that asks a question will hang until its timeout instead of reading an answer — and it runs one command, not a session, so a `cd` or an `export` does not survive into the next call. The answer shows the end of the output, its exit status, and where the whole of it was saved if it was long.";

// ---------------------------------------------------------------------------------------------
// Outcomes

/// What one tool call produced.
///
/// Two strings because they go to two different readers: `summary` is one line for the transcript,
/// which a human reads while the turn is running, and `content` is what goes back to the model.
#[derive(Debug, Clone, PartialEq, Eq)]
pub struct ToolOutcome {
    pub ok: bool,
    pub summary: String,
    pub content: String,
}

#[verifier::ext_equal]
pub struct ToolOutcomeView {
    pub ok: bool,
    pub summary: Seq<char>,
    pub content: Seq<char>,
}

impl View for ToolOutcome {
    type V = ToolOutcomeView;

    open spec fn view(&self) -> ToolOutcomeView {
        ToolOutcomeView { ok: self.ok, summary: self.summary@, content: self.content@ }
    }
}

impl ToolOutcome {
    pub fn done(summary: &str, content: &str) -> (out: Self)
        ensures
            out@ == (ToolOutcomeView { ok: true, summary: summary@, content: content@ }),
    {
        ToolOutcome { ok: true, summary: copy(summary), content: copy(content) }
    }

    pub fn failed(summary: &str, content: &str) -> (out: Self)
        ensures
            out@ == (ToolOutcomeView { ok: false, summary: summary@, content: content@ }),
    {
        ToolOutcome { ok: false, summary: copy(summary), content: copy(content) }
    }
}

/// A failure whose summary says which tool it was and whose content is the message itself.
pub open spec fn failure(tool: Seq<char>, message: Seq<char>) -> ToolOutcomeView {
    ToolOutcomeView { ok: false, summary: tool + " failed: "@ + message, content: message }
}

fn failure_of(tool: &str, message: &str) -> (out: ToolOutcome)
    ensures
        out@ == failure(tool@, message@),
{
    let mut summary = copy(tool);
    summary.append(" failed: ");
    summary.append(message);
    ToolOutcome::failed(&summary, message)
}

/// Which lines a read showed.
pub open spec fn chapter(shown: TruncatedView) -> Seq<char> {
    if shown.complete {
        decimal(shown.total_lines as nat) + " lines"@
    } else {
        "lines "@ + decimal(shown.first_line as nat) + "-"@ + decimal(shown.last_line as nat)
            + " of "@ + decimal(shown.total_lines as nat)
    }
}

/// What a read comes to.
pub open spec fn read_outcome_view(
    result: Result<ReadOutputView, ReadErrorView>,
) -> ToolOutcomeView {
    match result {
        Ok(output) => ToolOutcomeView {
            ok: true,
            summary: "read "@ + output.path + " · "@ + chapter(output.shown),
            content: output.rendered(),
        },
        Err(error) => failure("read"@, error.message()),
    }
}

/// What a read comes to, for the transcript and for the model.
pub fn read_outcome(result: &Result<ReadOutput, ReadError>) -> (out: ToolOutcome)
    ensures
        out@ == read_outcome_view(
            match *result {
                Ok(output) => Ok(output@),
                Err(error) => Err(error@),
            },
        ),
{
    match result {
        Ok(output) => {
            let mut summary = copy("read ");
            summary.append(&output.path);
            summary.append(" · ");
            if output.shown.complete {
                let mut lines = count_of(output.shown.total_lines);
                lines.append(" lines");
                summary.append(&lines);
            } else {
                let mut lines = copy("lines ");
                lines.append(&count_of(output.shown.first_line));
                lines.append("-");
                lines.append(&count_of(output.shown.last_line));
                lines.append(" of ");
                lines.append(&count_of(output.shown.total_lines));
                summary.append(&lines);
            }
            ToolOutcome::done(&summary, &output.render())
        },
        Err(error) => failure_of("read", &error.message()),
    }
}

/// What a write comes to.
pub open spec fn write_outcome_view(result: Result<WriteOutput, WriteErrorView>) -> ToolOutcomeView {
    match result {
        Ok(output) => {
            let verb = if output.created {
                "created"@
            } else {
                "replaced"@
            };
            ToolOutcomeView {
                ok: true,
                summary: verb + " "@ + output.path@ + " · "@ + decimal(output.bytes as nat)
                    + " bytes"@,
                content: verb + " "@ + output.path@,
            }
        },
        Err(error) => failure("write"@, not_written(error.path, error.error)),
    }
}

/// What a write comes to, for the transcript and for the model.
pub fn write_outcome(result: &Result<WriteOutput, WriteError>) -> (out: ToolOutcome)
    ensures
        out@ == write_outcome_view(
            match *result {
                Ok(output) => Ok(output),
                Err(error) => Err(error@),
            },
        ),
{
    match result {
        Ok(output) => {
            let mut content = if output.created {
                copy("created")
            } else {
                copy("replaced")
            };
            content.append(" ");
            content.append(&output.path);
            let mut summary = copy(&content);
            summary.append(" · ");
            summary.append(&count_of(output.bytes));
            summary.append(" bytes");
            ToolOutcome::done(&summary, &content)
        },
        Err(error) => failure_of("write", &error.message()),
    }
}

/// What an edit comes to.
pub open spec fn edit_outcome_view(
    result: Result<EditOutputView, EditErrorView>,
) -> ToolOutcomeView {
    match result {
        Ok(output) => ToolOutcomeView {
            ok: true,
            summary: "edited "@ + output.path + " · "@ + decimal(output.replaced as nat)
                + " change"@ + (if output.replaced == 1 {
                ""@
            } else {
                "s"@
            }),
            content: "edited "@ + output.path,
        },
        Err(error) => failure("edit"@, error.message()),
    }
}

/// What an edit comes to, for the transcript and for the model.
pub fn edit_outcome(result: &Result<EditOutput, EditError>) -> (out: ToolOutcome)
    ensures
        out@ == edit_outcome_view(
            match *result {
                Ok(output) => Ok(output@),
                Err(error) => Err(error@),
            },
        ),
{
    match result {
        Ok(output) => {
            let mut content = copy("edited ");
            content.append(&output.path);
            let mut summary = copy(&content);
            summary.append(" · ");
            summary.append(&count_of(output.replaced));
            summary.append(" change");
            summary.append(
                if output.replaced == 1 {
                    ""
                } else {
                    "s"
                },
            );
            ToolOutcome::done(&summary, &content)
        },
        Err(error) => failure_of("edit", &error.message()),
    }
}

/// The first line of a command, trimmed and held to sixty characters, for a one-line summary.
pub open spec fn headline(command: Seq<char>) -> Seq<char> {
    let line = trim(
        if lines(command).len() > 0 {
            lines(command)[0]
        } else {
            Seq::empty()
        },
    );
    if line.len() > 60 {
        line.take(60).push('…')
    } else {
        line
    }
}

/// The first line of a command, trimmed, for a one-line summary.
pub fn first_line(command: &str) -> (out: String)
    ensures
        out@ == headline(command@),
{
    let all = lines_of(command);
    if all.len() == 0 {
        let out = String::new();
        assert(out@ =~= headline(command@)) by {
            assert(trim(Seq::<char>::empty()) =~= Seq::<char>::empty());
        }
        return out;
    }
    assert(views(all@)[0] == all@[0]@);
    let chars = chars_of(&all[0]);
    let line = trim_of(chars.as_slice());
    if line.len() > 60 {
        let cut = vstd::slice::slice_subrange(line, 0, 60);
        assert(cut@ =~= line@.take(60));
        let mut out = string_of(cut);
        out.push('…');
        out
    } else {
        string_of(line)
    }
}

/// How a command is said to have ended.
pub open spec fn bash_status(output: BashOutputView) -> Seq<char> {
    if output.interrupted {
        "interrupted"@
    } else if output.timed_out {
        "timed out"@
    } else {
        match output.exit_code {
            Some(code) => "exit "@ + signed_decimal(code as int),
            None => "no exit status"@,
        }
    }
}

/// What a command comes to.
pub open spec fn bash_outcome_view(
    command: Seq<char>,
    result: Result<BashOutputView, BashErrorView>,
) -> ToolOutcomeView {
    match result {
        Ok(output) => ToolOutcomeView {
            ok: !output.is_error(),
            summary: headline(command) + " · "@ + bash_status(output) + " · "@ + decimal(
                output.text.total_lines as nat,
            ) + " lines"@,
            content: output.rendered(),
        },
        Err(error) => failure("bash"@, error.message()),
    }
}

/// What a command comes to, for the transcript and for the model.
pub fn bash_outcome(command: &str, result: &Result<BashOutput, BashError>) -> (out: ToolOutcome)
    ensures
        out@ == bash_outcome_view(
            command@,
            match *result {
                Ok(output) => Ok(output@),
                Err(error) => Err(error@),
            },
        ),
{
    match result {
        Ok(output) => {
            let status: String = if output.interrupted {
                copy("interrupted")
            } else if output.timed_out {
                copy("timed out")
            } else {
                match output.exit_code {
                    Some(code) => {
                        let mut status = copy("exit ");
                        status.append(&signed_decimal_of(code));
                        status
                    },
                    None => copy("no exit status"),
                }
            };
            let mut summary = first_line(command);
            summary.append(" · ");
            summary.append(&status);
            summary.append(" · ");
            summary.append(&count_of(output.text.total_lines));
            summary.append(" lines");
            let content = output.render();
            if output.is_error() {
                ToolOutcome::failed(&summary, &content)
            } else {
                ToolOutcome::done(&summary, &content)
            }
        },
        Err(error) => failure_of("bash", &error.message()),
    }
}

// ---------------------------------------------------------------------------------------------
// Calls

/// Where a call lands.
#[derive(Debug, Clone, Copy, PartialEq, Eq, Structural)]
pub enum Tool {
    Read,
    Write,
    Edit,
    Bash,
}

/// The name the model calls a tool by.
pub open spec fn tool_name(tool: Tool) -> Seq<char> {
    match tool {
        Tool::Read => "read"@,
        Tool::Write => "write"@,
        Tool::Edit => "edit"@,
        Tool::Bash => "bash"@,
    }
}

/// Whether a tool changes the file it is called on.
pub open spec fn changes_files(tool: Tool) -> bool {
    tool == Tool::Write || tool == Tool::Edit
}

/// What a call of a tool that does not exist is answered.
pub open spec fn unknown_tool(name: Seq<char>) -> ToolOutcomeView {
    ToolOutcomeView {
        ok: false,
        summary: "no tool called `"@ + name + "`"@,
        content: "There is no tool called `"@ + name
            + "`. The tools are: read, write, edit, bash."@,
    }
}

/// Where a call lands, or what it is answered when there is no such tool.
pub fn route(name: &str) -> (out: Result<Tool, ToolOutcome>)
    ensures
        match out {
            Ok(tool) => name@ == tool_name(tool),
            Err(outcome) => outcome@ == unknown_tool(name@) && forall|tool: Tool|
                name@ != #[trigger] tool_name(tool),
        },
{
    if same(name, "read") {
        Ok(Tool::Read)
    } else if same(name, "write") {
        Ok(Tool::Write)
    } else if same(name, "edit") {
        Ok(Tool::Edit)
    } else if same(name, "bash") {
        Ok(Tool::Bash)
    } else {
        let mut summary = copy("no tool called `");
        summary.append(name);
        summary.append("`");
        let mut content = copy("There is no tool called `");
        content.append(name);
        content.append("`. The tools are: read, write, edit, bash.");
        Err(ToolOutcome::failed(&summary, &content))
    }
}

/// What a call with arguments that cannot be read is answered: the complaint, and the arguments as
/// they came, which is usually enough for the model to fix its own call.
pub open spec fn unreadable(
    name: Seq<char>,
    arguments: Seq<char>,
    error: Seq<char>,
) -> ToolOutcomeView {
    ToolOutcomeView {
        ok: false,
        summary: name + ": arguments could not be read"@,
        content: "The arguments for `"@ + name + "` could not be read as JSON: "@ + error
            + ". They were: "@ + arguments,
    }
}

/// What a call with arguments that cannot be read is answered.
pub fn unreadable_arguments(name: &str, arguments: &str, error: &str) -> (out: ToolOutcome)
    ensures
        out@ == unreadable(name@, arguments@, error@),
{
    let mut summary = copy(name);
    summary.append(": arguments could not be read");
    let mut content = copy("The arguments for `");
    content.append(name);
    content.append("` could not be read as JSON: ");
    content.append(error);
    content.append(". They were: ");
    content.append(arguments);
    ToolOutcome::failed(&summary, &content)
}

/// Whether an event says that the command in a pane has to stop: Ctrl+C was pressed in the pane, or
/// the pane was closed. The pane's own output, other panes and other events are no reason.
pub open spec fn stop_event(id: PaneId, event: Event) -> bool {
    match event {
        Event::Pty(PtyEvent::Input { id: to, bytes }) => to == id && bytes@.contains(CTRL_C),
        Event::Pty(PtyEvent::Kill { id: to }) => to == id,
        _ => false,
    }
}

fn has_byte(bytes: &Vec<u8>, wanted: u8) -> (out: bool)
    ensures
        out == bytes@.contains(wanted),
{
    let mut i: usize = 0;
    while i < bytes.len()
        invariant
            i <= bytes@.len(),
            forall|k: int| 0 <= k < i ==> bytes@[k] != wanted,
        decreases bytes@.len() - i,
    {
        if bytes[i] == wanted {
            return true;
        }
        i += 1;
    }
    false
}

/// Whether an event says that the command in a pane has to stop.
pub fn is_stop(id: PaneId, event: &Event) -> (out: bool)
    ensures
        out == stop_event(id, *event),
{
    match event {
        Event::Pty(PtyEvent::Input { id: to, bytes }) => *to == id && has_byte(bytes, CTRL_C),
        Event::Pty(PtyEvent::Kill { id: to }) => *to == id,
        _ => false,
    }
}

// ---------------------------------------------------------------------------------------------
// The set

/// The four tools, and the state they share.
#[derive(Debug)]
pub struct ToolSet {
    /// The directory relative paths resolve against, and where `bash` runs by default.
    cwd: String,
    /// Whether anyone listens to what is announced. A write nobody watches is announced to nobody,
    /// and a command nobody can see needs no pane.
    watched: bool,
    /// The `bash` panes that were opened, the oldest first: it is closed before a new one is opened
    /// once there are [`TOOL_PANES`] of them.
    panes: Vec<PaneId>,
}

#[verifier::ext_equal]
pub struct ToolSetView {
    pub cwd: Seq<char>,
    pub watched: bool,
    pub panes: Seq<PaneId>,
}

impl View for ToolSet {
    type V = ToolSetView;

    closed spec fn view(&self) -> ToolSetView {
        ToolSetView { cwd: self.cwd@, watched: self.watched, panes: self.panes@ }
    }
}

/// The table the model is sent.
pub open spec fn tool_table() -> Seq<ToolSpecView> {
    seq![
        ToolSpecView { name: "read"@, description: READ@, parameters: read_schema() },
        ToolSpecView { name: "write"@, description: WRITE@, parameters: write_schema() },
        ToolSpecView { name: "edit"@, description: EDIT@, parameters: edit_schema() },
        ToolSpecView { name: "bash"@, description: BASH@, parameters: bash_schema() },
    ]
}

/// A path as the session means it.
pub open spec fn session_path(
    cwd: Seq<char>,
    path: Seq<char>,
    home: Option<Seq<char>>,
) -> Seq<char> {
    let expanded = tilde_expanded(path, home);
    if absolute(expanded) {
        expanded
    } else {
        joined(cwd, expanded)
    }
}

/// A list of panes without one of them.
pub open spec fn panes_without(panes: Seq<PaneId>, id: PaneId) -> Seq<PaneId>
    decreases panes.len(),
{
    if panes.len() == 0 {
        panes
    } else if panes.last() == id {
        panes_without(panes.drop_last(), id)
    } else {
        panes_without(panes.drop_last(), id).push(panes.last())
    }
}

impl ToolSetView {
    /// There are never more panes than there is room for.
    pub open spec fn wf(self) -> bool {
        self.panes.len() <= TOOL_PANES
    }

    /// How many of the oldest panes have to go before another fits.
    pub open spec fn surplus(self) -> int {
        if self.panes.len() < TOOL_PANES {
            0
        } else {
            self.panes.len() - TOOL_PANES + 1
        }
    }

    /// With a pane opened for a command: the oldest makes room.
    pub open spec fn opened(self, id: PaneId) -> ToolSetView {
        ToolSetView { panes: self.panes.skip(self.surplus()).push(id), ..self }
    }

    /// What is announced then: the panes that made room, and the new one under the command's first
    /// line.
    pub open spec fn opening(self, id: PaneId, command: Seq<char>) -> Seq<PaneEventView> {
        Seq::new(
            self.surplus() as nat,
            |i: int| PaneEventView::Closed { id: self.panes[i] },
        ).push(
            PaneEventView::Opened {
                spec: PaneSpecView { id, kind: PaneKind::Terminal, title: headline(command) },
            },
        )
    }

    /// With a pane taken back.
    pub open spec fn closed(self, id: PaneId) -> ToolSetView {
        ToolSetView { panes: panes_without(self.panes, id), ..self }
    }
}

proof fn lemma_panes_without(panes: Seq<PaneId>, id: PaneId)
    ensures
        panes_without(panes, id).len() <= panes.len(),
        !panes_without(panes, id).contains(id),
    decreases panes.len(),
{
    if panes.len() > 0 {
        lemma_panes_without(panes.drop_last(), id);
        let rest = panes_without(panes.drop_last(), id);
        if panes.last() != id {
            assert forall|i: int| 0 <= i < rest.push(panes.last()).len() implies rest.push(
                panes.last(),
            )[i] != id by {
                if i < rest.len() {
                    assert(rest.contains(rest[i]));
                }
            }
        }
    }
}

impl ToolSet {
    #[verifier::type_invariant]
    pub closed spec fn sound(self) -> bool {
        self@.wf()
    }

    pub fn new(cwd: &str) -> (out: Self)
        ensures
            out@ == (ToolSetView { cwd: cwd@, watched: false, panes: Seq::empty() }),
    {
        ToolSet { cwd: copy(cwd), watched: false, panes: Vec::new() }
    }

    /// Announce this tool set's writes and panes to whoever listens.
    pub fn with_bus(self) -> (out: Self)
        ensures
            out@ == (ToolSetView { watched: true, ..self@ }),
    {
        proof {
            use_type_invariant(&self);
        }
        ToolSet { cwd: self.cwd, watched: true, panes: self.panes }
    }

    pub fn cwd(&self) -> (out: &str)
        ensures
            out@ == self@.cwd,
    {
        self.cwd.as_str()
    }

    /// Whether anyone listens.
    pub fn is_watched(&self) -> (out: bool)
        ensures
            out == self@.watched,
    {
        self.watched
    }

    /// The panes of the latest calls, the oldest first.
    pub fn panes(&self) -> (out: &Vec<PaneId>)
        ensures
            out@ == self@.panes,
            out@.len() <= TOOL_PANES,
    {
        proof {
            use_type_invariant(self);
        }
        &self.panes
    }

    /// The table the model is sent: names, descriptions, and each tool's own parameter schema.
    ///
    /// Built from the schemas rather than from a copy of them. A parameter the model is told about
    /// that nothing reads is worse than no parameter, and the way that happens is a second,
    /// hand-maintained copy of a schema.
    pub fn specs(&self) -> (out: Vec<ToolSpec>)
        ensures
            spec_views(out@) == tool_table(),
    {
        let mut out: Vec<ToolSpec> = Vec::new();
        out.push(ToolSpec::new("read", READ, ReadArgs::schema()));
        out.push(ToolSpec::new("write", WRITE, WriteArgs::schema()));
        out.push(ToolSpec::new("edit", EDIT, EditArgs::schema()));
        out.push(ToolSpec::new("bash", BASH, BashArgs::schema()));
        assert(spec_views(out@) =~= tool_table());
        out
    }

    /// A path as the session means it.
    ///
    /// A relative path reaches a tool as the model wrote it, and a tool that resolved it against
    /// the process's own directory would read and write somewhere the session is not.
    pub fn resolve(&self, path: &str, home: Option<String>) -> (out: String)
        ensures
            out@ == session_path(self@.cwd, path@, opt_view(home)),
    {
        let expanded = expand_tilde_with(path, home);
        if is_absolute(&expanded) {
            expanded
        } else {
            join_path(&self.cwd, &expanded)
        }
    }

    /// What to announce *before* a write, which is the whole contract: the announcement has to be
    /// out by the time the filesystem's own notification comes back. Nothing when nobody listens.
    pub fn announce_write(&self, path: &str) -> (out: Option<FileEvent>)
        ensures
            match out {
                Some(event) => self@.watched && event@ == (FileEventView::EditorWrote {
                    path: path@,
                }),
                None => !self@.watched,
            },
    {
        if self.watched {
            Some(FileEvent::EditorWrote { path: copy(path) })
        } else {
            None
        }
    }

    /// What to announce before a tool touches a file. A read touches nothing, so it announces nothing:
    /// a read that did would cancel a real change's notification, and a pane would quietly miss it.
    pub fn announcement(&self, tool: Tool, path: &str) -> (out: Option<FileEvent>)
        ensures
            match out {
                Some(event) => self@.watched && changes_files(tool) && event@ == (
                FileEventView::EditorWrote { path: path@ }),
                None => !self@.watched || !changes_files(tool),
            },
    {
        match tool {
            Tool::Write | Tool::Edit => self.announce_write(path),
            Tool::Read | Tool::Bash => None,
        }
    }

    /// Opens the pane of a call; when there is no room the oldest is closed first.
    ///
    /// Closing a pane stops what runs in it, so the one that is closed leaves no process behind that
    /// nobody sees.
    pub fn open_tool_pane(&mut self, id: PaneId, command: &str) -> (out: Vec<PaneEvent>)
        ensures
            final(self)@ == old(self)@.opened(id),
            pane_views(out@) == old(self)@.opening(id, command@),
            final(self)@.wf(),
    {
        proof {
            use_type_invariant(&*self);
        }
        let ghost before = self@;
        let mut out: Vec<PaneEvent> = Vec::new();
        // Room is made before the pane is opened, so the layout never holds more than its share.
        let mut kept: Vec<PaneId> = Vec::new();
        if self.panes.len() >= TOOL_PANES {
            out.push(PaneEvent::Closed { id: self.panes[0] });
            kept.push(self.panes[1]);
        } else if self.panes.len() == 1 {
            kept.push(self.panes[0]);
        }
        kept.push(id);
        out.push(
            PaneEvent::Opened {
                spec: PaneSpec::new(id, PaneKind::Terminal).with_title(&first_line(command)),
            },
        );
        assert(pane_views(out@) =~= before.opening(id, command@));
        assert(kept@ =~= before.opened(id).panes);
        self.panes = kept;
        out
    }

    /// Take back the pane of a call that never started.
    ///
    /// The pane is opened before the command is, so a command that fails outright leaves a pane with
    /// nothing to show and nothing that will ever appear in it.
    pub fn close_tool_pane(&mut self, id: PaneId) -> (out: PaneEvent)
        ensures
            final(self)@ == old(self)@.closed(id),
            out@ == (PaneEventView::Closed { id }),
            final(self)@.wf(),
    {
        proof {
            use_type_invariant(&*self);
            lemma_panes_without(self.panes@, id);
        }
        let mut kept: Vec<PaneId> = Vec::new();
        let mut i: usize = 0;
        assert(self.panes@.take(0) =~= Seq::<PaneId>::empty());
        while i < self.panes.len()
            invariant
                i <= self.panes@.len(),
                self@ == old(self)@,
                kept@ == panes_without(self.panes@.take(i as int), id),
            decreases self.panes@.len() - i,
        {
            assert(self.panes@.take(i + 1).drop_last() =~= self.panes@.take(i as int));
            if self.panes[i] != id {
                kept.push(self.panes[i]);
            }
            i += 1;
        }
        assert(self.panes@.take(self.panes@.len() as int) =~= self.panes@);
        self.panes = kept;
        PaneEvent::Closed { id }
    }

    /// What happens as a command is about to run: a pane is opened for it, if anyone can see it.
    ///
    /// Whoever listens for a stop has to listen before these events are out: the pane is there the
    /// moment they are, and a key pressed in it then must not be lost.
    pub fn begin_bash(&mut self, id: PaneId, command: &str) -> (out: Vec<PaneEvent>)
        ensures
            old(self)@.watched ==> final(self)@ == old(self)@.opened(id) && pane_views(out@)
                == old(self)@.opening(id, command@),
            !old(self)@.watched ==> final(self)@ == old(self)@ && out@.len() == 0,
    {
        if self.watched {
            self.open_tool_pane(id, command)
        } else {
            Vec::new()
        }
    }

    /// What a command comes to, and the pane that is taken back when it never started.
    pub fn call_bash(
        &mut self,
        id: PaneId,
        command: &str,
        result: &Result<BashOutput, BashError>,
    ) -> (out: (ToolOutcome, Option<PaneEvent>))
        ensures
            out.0@ == bash_outcome_view(
                command@,
                match *result {
                    Ok(output) => Ok(output@),
                    Err(error) => Err(error@),
                },
            ),
            out.1 is Some <==> result is Err && old(self)@.watched,
            out.1 is Some ==> out.1->0@ == (PaneEventView::Closed { id }),
            final(self)@ == if result is Err && old(self)@.watched {
                old(self)@.closed(id)
            } else {
                old(self)@
            },
    {
        let outcome = bash_outcome(command, result);
        match result {
            Ok(_) => (outcome, None),
            Err(_) => if self.watched {
                let closed = self.close_tool_pane(id);
                (outcome, Some(closed))
            } else {
                (outcome, None)
            },
        }
    }
}

// ---------------------------------------------------------------------------------------------
// Laws

/// The table lists the tools in the fixed order, and a call of a listed name lands on that tool.
pub proof fn law_the_table_has_the_fixed_order(i: int)
    requires
        0 <= i < 4,
    ensures
        tool_table().len() == ORDER@.len(),
        tool_table()[i].name == ORDER@[i]@,
        exists|tool: Tool| #[trigger] tool_name(tool) == tool_table()[i].name,
{
    assert(tool_name(Tool::Read) == "read"@);
    assert(tool_name(Tool::Write) == "write"@);
    assert(tool_name(Tool::Edit) == "edit"@);
    assert(tool_name(Tool::Bash) == "bash"@);
}

/// There are never more tool panes than there is room for, however many commands are run, and the
/// newest is always among them.
pub proof fn law_panes_stay_within_their_room(set: ToolSetView, id: PaneId, other: PaneId)
    requires
        set.wf(),
    ensures
        set.opened(id).wf(),
        set.opened(id).panes.last() == id,
        set.closed(other).wf(),
{
    lemma_panes_without(set.panes, other);
}

/// The pane of a call that never started is taken back: opening it and closing it again leaves
/// nothing of it.
pub proof fn law_a_pane_is_taken_back(set: ToolSetView, id: PaneId)
    requires
        set.wf(),
    ensures
        !set.opened(id).closed(id).panes.contains(id),
{
    lemma_panes_without(set.opened(id).panes, id);
}

/// Being stopped is not a failure: a command that someone interrupted is answered as done.
pub proof fn law_an_interrupted_command_is_not_a_failure(
    command: Seq<char>,
    output: BashOutputView,
)
    requires
        output.interrupted,
    ensures
        bash_outcome_view(command, Ok(output)).ok,
{
}

/// A tool that failed is answered with what it said, under its name; one that did not is answered
/// with what it did. The transcript's line says the same in short.
pub proof fn law_an_outcome_tells_what_came_of_the_call(
    read: Result<ReadOutputView, ReadErrorView>,
    write: Result<WriteOutput, WriteErrorView>,
    edit: Result<EditOutputView, EditErrorView>,
    command: Seq<char>,
    bash: Result<BashOutputView, BashErrorView>,
)
    ensures
        match read {
            Ok(output) => {
                &&& read_outcome_view(read).ok
                &&& read_outcome_view(read).content == output.rendered()
                &&& output.shown.complete ==> read_outcome_view(read).summary == "read "@
                    + output.path + " · "@ + (decimal(output.shown.total_lines as nat) + " lines"@)
                &&& !output.shown.complete ==> read_outcome_view(read).summary == "read "@
                    + output.path + " · "@ + ("lines "@ + decimal(output.shown.first_line as nat)
                    + "-"@ + decimal(output.shown.last_line as nat) + " of "@ + decimal(
                    output.shown.total_lines as nat,
                ))
            },
            Err(error) => read_outcome_view(read) == (ToolOutcomeView {
                ok: false,
                summary: "read"@ + " failed: "@ + error.message(),
                content: error.message(),
            }),
        },
        match write {
            Ok(output) => {
                let did = if output.created {
                    "created"@
                } else {
                    "replaced"@
                };
                write_outcome_view(write) == (ToolOutcomeView {
                    ok: true,
                    summary: did + " "@ + output.path@ + " · "@ + decimal(output.bytes as nat)
                        + " bytes"@,
                    content: did + " "@ + output.path@,
                })
            },
            Err(error) => write_outcome_view(write) == (ToolOutcomeView {
                ok: false,
                summary: "write"@ + " failed: "@ + not_written(error.path, error.error),
                content: error.path + " could not be written: "@ + error.error,
            }),
        },
        match edit {
            Ok(output) => {
                &&& edit_outcome_view(edit).ok
                &&& edit_outcome_view(edit).content == "edited "@ + output.path
                &&& output.replaced != 1 ==> edit_outcome_view(edit).summary == "edited "@
                    + output.path + " · "@ + decimal(output.replaced as nat) + " change"@ + "s"@
                &&& output.replaced == 1 ==> edit_outcome_view(edit).summary == "edited "@
                    + output.path + " · "@ + decimal(1) + " change"@
            },
            Err(error) => edit_outcome_view(edit) == (ToolOutcomeView {
                ok: false,
                summary: "edit"@ + " failed: "@ + error.message(),
                content: error.message(),
            }),
        },
        match bash {
            Ok(output) => {
                &&& bash_outcome_view(command, bash).ok == !output.is_error()
                &&& bash_outcome_view(command, bash).content == output.rendered()
                &&& !output.interrupted && !output.timed_out ==> (output.exit_code matches Some(
                    code,
                ) ==> bash_outcome_view(command, bash).summary == headline(command) + " · "@ + (
                "exit "@ + signed_decimal(code as int)) + " · "@ + decimal(
                    output.text.total_lines as nat,
                ) + " lines"@)
            },
            Err(error) => bash_outcome_view(command, bash) == (ToolOutcomeView {
                ok: false,
                summary: "bash"@ + " failed: "@ + error.message(),
                content: error.message(),
            }),
        },
{
    reveal_strlit("");
    if let Ok(output) = edit {
        if output.replaced == 1 {
            assert(edit_outcome_view(edit).summary =~= "edited "@ + output.path + " · "@ + decimal(
                1,
            ) + " change"@);
        }
    }
}

/// A command goes by its first line, without the white space around it. Sixty characters of it are
/// shown, and a mark where there are more.
pub proof fn law_a_command_goes_by_its_first_line(line: Seq<char>, rest: Seq<char>)
    requires
        !line.contains('\n'),
        line.len() > 0,
        !white(line[0]),
        !white(line.last()),
    ensures
        headline(line.push('\n') + rest) == headline(line),
        line.len() <= 60 ==> headline(line) == line,
        line.len() > 60 ==> headline(line) == line.take(60) + seq!['…'],
        headline(Seq::empty()).len() == 0,
{
    let none = Seq::<char>::empty();
    law_lines_end_with_a_line_feed(line, rest);
    assert((seq![line] + lines(rest))[0] == line);
    law_trimming_undoes_padding(none, line, none);
    assert(none + line + none =~= line);
    assert(line.take(60).push('…') =~= line.take(60) + seq!['…']);
}

/// A call lands on the tool of its name, each tool has its own, and only the two that write change
/// files. A name that no tool has is answered with the names that there are.
pub proof fn law_a_call_lands_on_the_tool_of_its_name(tool: Tool, other: Tool, name: Seq<char>)
    ensures
        tool_name(tool) == tool_name(other) ==> tool == other,
        tool_name(Tool::Read) == "read"@,
        tool_name(Tool::Write) == "write"@,
        tool_name(Tool::Edit) == "edit"@,
        tool_name(Tool::Bash) == "bash"@,
        changes_files(tool) <==> tool is Write || tool is Edit,
        !unknown_tool(name).ok,
        unknown_tool(name).content == "There is no tool called `"@ + name
            + "`. The tools are: read, write, edit, bash."@,
{
    reveal_strlit("read");
    reveal_strlit("write");
    reveal_strlit("edit");
    reveal_strlit("bash");
    assert("read"@[0] == 'r' && "write"@[0] == 'w' && "edit"@[0] == 'e' && "bash"@[0] == 'b');
}

/// A call whose arguments cannot be read is answered with the complaint and with the arguments as
/// they came.
pub proof fn law_unreadable_arguments_are_handed_back(
    name: Seq<char>,
    arguments: Seq<char>,
    error: Seq<char>,
)
    ensures
        !unreadable(name, arguments, error).ok,
        unreadable(name, arguments, error).content == "The arguments for `"@ + name
            + "` could not be read as JSON: "@ + error + ". They were: "@ + arguments,
{
}

/// A command stops when Ctrl+C is pressed in its own pane or its own pane is closed, and for no other
/// event.
pub proof fn law_only_its_own_pane_stops_a_command(id: PaneId, event: Event)
    ensures
        stop_event(id, event) ==> match event {
            Event::Pty(PtyEvent::Input { id: to, bytes }) => to == id && exists|i: int|
                0 <= i < bytes@.len() && bytes@[i] == 3,
            Event::Pty(PtyEvent::Kill { id: to }) => to == id,
            _ => false,
        },
        event matches Event::Pty(PtyEvent::Kill { id: to }) ==> (to == id ==> stop_event(
            id,
            event,
        )),
        event matches Event::Pty(PtyEvent::Input { id: to, bytes }) ==> (to == id && (exists|
            i: int,
        |
            0 <= i < bytes@.len() && bytes@[i] == 3) ==> stop_event(id, event)),
{
}

/// While there is room a new pane joins the others; where there is none the oldest makes room, and is
/// said to be closed before the new one is said to be open.
pub proof fn law_the_oldest_pane_makes_room(set: ToolSetView, id: PaneId, command: Seq<char>)
    requires
        set.wf(),
    ensures
        set.panes.len() < 2 ==> set.opened(id).panes == set.panes.push(id) && set.opening(
            id,
            command,
        ).len() == 1,
        set.panes.len() == 2 ==> set.opened(id).panes == seq![set.panes[1], id] && set.opening(
            id,
            command,
        ).len() == 2 && set.opening(id, command)[0] == (PaneEventView::Closed {
            id: set.panes[0],
        }),
        set.opening(id, command).last() matches PaneEventView::Opened { spec } && spec.id == id
            && spec.kind == PaneKind::Terminal && spec.title == headline(command),
        set.opened(id).cwd == set.cwd,
        set.opened(id).watched == set.watched,
{
    assert(set.panes.skip(0) =~= set.panes);
    if set.panes.len() == 2 {
        assert(set.opened(id).panes =~= seq![set.panes[1], id]);
    }
}

/// Closing a pane takes that one away and leaves the others as they were.
pub proof fn law_closing_a_pane_leaves_the_others(set: ToolSetView, id: PaneId)
    ensures
        set.closed(id).panes == set.panes.filter(|pane: PaneId| pane != id),
        set.closed(id).cwd == set.cwd,
        set.closed(id).watched == set.watched,
{
    lemma_panes_filter(set.panes, id);
}

proof fn lemma_panes_filter(panes: Seq<PaneId>, id: PaneId)
    ensures
        panes_without(panes, id) == panes.filter(|pane: PaneId| pane != id),
    decreases panes.len(),
{
    reveal(Seq::filter);
    if panes.len() > 0 {
        lemma_panes_filter(panes.drop_last(), id);
    } else {
        assert(panes =~= panes.filter(|pane: PaneId| pane != id));
    }
}

/// A path that starts at the root is meant as it is; any other is below the session's directory.
pub proof fn law_a_relative_path_is_below_the_session(
    cwd: Seq<char>,
    path: Seq<char>,
    home: Option<Seq<char>>,
)
    ensures
        path.len() > 0 && path[0] == '/' ==> session_path(cwd, path, home) == path,
        cwd.len() > 0 && cwd.last() != '/' && path.len() > 0 && path[0] != '/' && path[0] != '~'
            ==> session_path(cwd, path, home) == cwd + seq!['/'] + path,
{
    reveal_strlit("~");
    reveal_strlit("~/");
    assert(cwd.push('/') =~= cwd + seq!['/']);
    if path.len() > 0 && path[0] != '~' {
        assert(path != "~"@) by {
            if path == "~"@ {
                assert(path[0] == '~');
            }
        }
        if begins(path, "~/"@) {
            assert(path.take(2)[0] == '~');
        }
    }
}

/// The model is told of each tool what that tool reads: its own parameters, under its own name.
pub proof fn law_each_tool_is_told_with_its_own_parameters()
    ensures
        tool_table().len() == 4,
        tool_table()[0].parameters == read_schema(),
        tool_table()[1].parameters == write_schema(),
        tool_table()[2].parameters == edit_schema(),
        tool_table()[3].parameters == bash_schema(),
        tool_table()[0].description == READ@,
        tool_table()[1].description == WRITE@,
        tool_table()[2].description == EDIT@,
        tool_table()[3].description == BASH@,
{
}

/// A command's line says how it ended: that it was stopped, that its time ran out, the code it exited
/// with, or that it has none.
pub proof fn law_a_line_says_how_its_command_ended(command: Seq<char>, output: BashOutputView)
    ensures
        ({
            let line = bash_outcome_view(command, Ok(output)).summary;
            let front = headline(command) + " · "@;
            let back = decimal(output.text.total_lines as nat);
            &&& output.interrupted ==> line == front + "interrupted"@ + " · "@ + back + " lines"@
            &&& !output.interrupted && output.timed_out ==> line == front + "timed out"@ + " · "@
                + back + " lines"@
            &&& !output.interrupted && !output.timed_out && output.exit_code is None ==> line
                == front + "no exit status"@ + " · "@ + back + " lines"@
        }),
{
}

} // verus!
