//! A terminal session: what its pane is called, what reaches its process, and how it ends.
//!
//! A session belongs to a pane. Its output is published as it comes, and what the bus carries for the
//! same pane (keys, a new size, the wish to close) goes to its process. The end of a session is an
//! event, not an error.

use vstd::prelude::*;

use crate::event::{Event, PtyEvent};
use crate::pane::PaneId;
use crate::paths::{path_parts, path_view};
use crate::text::{copy, lines, lines_of, same, views};

verus! {

/// How much is read from a terminal at once. A terminal has no lines, so what was read is published
/// as it is.
pub const READ_CHUNK: usize = 8192;

/// The last name of a path; none for the root, for what ends in `..`, and for nothing.
pub open spec fn file_name(path: Seq<char>) -> Option<Seq<char>> {
    let names = path_view(path).names;
    if names.len() > 0 && names.last() != ".."@ {
        Some(names.last())
    } else {
        None
    }
}

/// What a session's pane is called: the first line of its command, or the name of its shell.
pub open spec fn title_text(shell: Seq<char>, command: Seq<char>) -> Seq<char> {
    if command.len() > 0 {
        lines(command)[0]
    } else {
        match file_name(shell) {
            Some(name) => name,
            None => shell,
        }
    }
}

/// What a session's pane is called.
pub fn title(shell: &str, command: &str) -> (out: String)
    ensures
        out@ == title_text(shell@, command@),
{
    if !command.is_empty() {
        let rows = lines_of(command);
        proof {
            crate::text::lemma_upto(command@, '\n');
            assert(rows@.len() == lines(command@).len());
            assert(lines(command@).len() > 0);
            assert(views(rows@)[0] == rows@[0]@);
        }
        return copy(&rows[0]);
    }
    let parts = path_parts(shell);
    let n: usize = parts.names.len();
    if n == 0 {
        return copy(shell);
    }
    assert(parts@.names.last() == parts.names@[n - 1]@);
    if same(&parts.names[n - 1], "..") {
        copy(shell)
    } else {
        copy(&parts.names[n - 1])
    }
}

/// How a process ended.
#[derive(Debug, Clone, Copy, PartialEq, Eq, Structural)]
pub struct Status {
    pub signalled: bool,
    pub code: u32,
}

/// The code of a command that ended by itself. One that was killed by a signal, or whose end nobody
/// saw, has none.
pub fn exit_code(status: Option<Status>) -> (out: Option<i32>)
    ensures
        out == (match status {
            Some(status) => if status.signalled {
                None
            } else {
                Some(status.code as i32)
            },
            None => None,
        }),
{
    match status {
        Some(status) => if status.signalled {
            None
        } else {
            Some(status.code as i32)
        },
        None => None,
    }
}

/// What one read of a terminal gave.
#[derive(Debug, Clone, Copy, PartialEq, Eq, Structural)]
pub enum ReadOutcome {
    Bytes(usize),
    /// A signal came in between.
    Interrupted,
    /// The other side is gone.
    Failed,
}

/// What is done with it.
#[derive(Debug, Clone, Copy, PartialEq, Eq, Structural)]
pub enum OutputStep {
    Publish(usize),
    Again,
    /// This was the session's last word.
    End,
}

/// What is done with what one read gave. A read that fails is how a terminal says that its process
/// is gone: it ends the session like a read of nothing.
pub fn output_step(read: ReadOutcome) -> (out: OutputStep)
    ensures
        out == (match read {
            ReadOutcome::Bytes(n) => if n == 0 {
                OutputStep::End
            } else {
                OutputStep::Publish(n)
            },
            ReadOutcome::Interrupted => OutputStep::Again,
            ReadOutcome::Failed => OutputStep::End,
        }),
{
    match read {
        ReadOutcome::Bytes(n) => if n == 0 {
            OutputStep::End
        } else {
            OutputStep::Publish(n)
        },
        ReadOutcome::Interrupted => OutputStep::Again,
        ReadOutcome::Failed => OutputStep::End,
    }
}

/// What a session heard on the bus.
#[derive(Debug, Clone, PartialEq)]
pub enum Heard {
    Event(Event),
    /// Events were lost.
    Lagged,
    /// There will be no more.
    Closed,
}

/// What a session does about it.
#[derive(Debug, Clone, PartialEq, Eq)]
pub enum Act {
    Write(Vec<u8>),
    Resize { rows: u16, cols: u16 },
    Kill,
    /// Nobody will type into this pane any more.
    Stop,
    Nothing,
}

/// Whether this is what a session does about what it heard.
pub open spec fn acts(act: Act, id: PaneId, heard: Heard, running: bool) -> bool {
    match heard {
        Heard::Event(Event::Pty(PtyEvent::Input { id: to, bytes })) => if to == id {
            act matches Act::Write(written) && written@ == bytes@
        } else {
            act is Nothing
        },
        Heard::Event(Event::Pty(PtyEvent::Resize { id: to, rows, cols })) => if to == id {
            act == (Act::Resize { rows, cols })
        } else {
            act is Nothing
        },
        Heard::Event(Event::Pty(PtyEvent::Kill { id: to })) => if to == id {
            act is Kill
        } else {
            act is Nothing
        },
        Heard::Event(Event::Pty(PtyEvent::Exited { id: to, .. })) => if to == id {
            act is Stop
        } else {
            act is Nothing
        },
        Heard::Event(_) => act is Nothing,
        // What was lost may have been anything: as long as the process lives, keep listening.
        Heard::Lagged => if running {
            act is Nothing
        } else {
            act is Stop
        },
        Heard::Closed => act is Stop,
    }
}

/// What a session does about what it heard. Other panes' events are nothing to it.
pub fn on_heard(id: PaneId, heard: Heard, running: bool) -> (out: Act)
    ensures
        acts(out, id, heard, running),
{
    match heard {
        Heard::Event(Event::Pty(PtyEvent::Input { id: to, bytes })) => if to == id {
            Act::Write(bytes)
        } else {
            Act::Nothing
        },
        Heard::Event(Event::Pty(PtyEvent::Resize { id: to, rows, cols })) => if to == id {
            Act::Resize { rows, cols }
        } else {
            Act::Nothing
        },
        Heard::Event(Event::Pty(PtyEvent::Kill { id: to })) => if to == id {
            Act::Kill
        } else {
            Act::Nothing
        },
        Heard::Event(Event::Pty(PtyEvent::Exited { id: to, .. })) => if to == id {
            Act::Stop
        } else {
            Act::Nothing
        },
        Heard::Event(_) => Act::Nothing,
        Heard::Lagged => if running {
            Act::Nothing
        } else {
            Act::Stop
        },
        Heard::Closed => Act::Stop,
    }
}

/// The pane an event of a terminal is about.
pub open spec fn pane_of(event: PtyEvent) -> PaneId {
    match event {
        PtyEvent::Started { id, .. } => id,
        PtyEvent::Output { id, .. } => id,
        PtyEvent::Exited { id, .. } => id,
        PtyEvent::Input { id, .. } => id,
        PtyEvent::Resize { id, .. } => id,
        PtyEvent::Kill { id } => id,
    }
}

/// What is typed into one pane never reaches the process of another.
pub proof fn law_other_panes_are_left_alone(act: Act, id: PaneId, event: PtyEvent, running: bool)
    requires
        pane_of(event) != id,
        acts(act, id, Heard::Event(Event::Pty(event)), running),
    ensures
        act is Nothing,
{
}

/// What is meant for a pane reaches its process: keys as they were typed, a new size as it is, and
/// the wish to close. The end of the process ends the listening, and so does the end of the bus;
/// events that were lost end it only when the process is gone.
pub proof fn law_what_is_meant_for_a_pane_reaches_it(
    act: Act,
    id: PaneId,
    heard: Heard,
    running: bool,
)
    requires
        acts(act, id, heard, running),
    ensures
        match heard {
            Heard::Event(Event::Pty(event)) => pane_of(event) == id ==> match event {
                PtyEvent::Input { bytes, .. } => act matches Act::Write(written) && written@
                    == bytes@,
                PtyEvent::Resize { rows, cols, .. } => act == (Act::Resize { rows, cols }),
                PtyEvent::Kill { .. } => act is Kill,
                PtyEvent::Exited { .. } => act is Stop,
                PtyEvent::Started { .. } => act is Nothing,
                PtyEvent::Output { .. } => act is Nothing,
            },
            Heard::Event(_) => act is Nothing,
            Heard::Lagged => (act is Stop <==> !running) && (act is Nothing <==> running),
            Heard::Closed => act is Stop,
        },
{
}

/// A session's pane is called by the first line of its command, and without one by the last name of
/// its shell's path.
pub proof fn law_a_pane_is_called_by_what_runs_in_it(
    shell: Seq<char>,
    line: Seq<char>,
    rest: Seq<char>,
)
    requires
        line.len() > 0,
        !line.contains('\n'),
        line.last() != '\r',
    ensures
        title_text(shell, line) == line,
        title_text(shell, line.push('\n') + rest) == line,
        path_view(shell).names.len() > 0 && path_view(shell).names.last() != ".."@ ==> title_text(
            shell,
            Seq::empty(),
        ) == path_view(shell).names.last(),
        path_view(shell).names.len() == 0 ==> title_text(shell, Seq::empty()) == shell,
{
    crate::text::law_lines_end_with_a_line_feed(line, rest);
    assert((seq![line] + lines(rest))[0] == line);
}

} // verus!
