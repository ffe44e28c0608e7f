//! What every layer tells the others.
//!
//! Panes never call each other. An agent tool call, a file that changed on disk, a pane opening
//! and a session being written all become events, and whoever cares subscribes.

use vstd::prelude::*;

use crate::message::{message_views, ChatMessage, ChatMessageView};
use crate::pane::{PaneId, PaneSpec, PaneSpecView};
use crate::ratio::Ratio;

verus! {

/// What the model is doing. Deltas are deltas: a subscriber appends, it does not replace.
#[derive(Debug, Clone, PartialEq)]
pub enum AgentEvent {
    /// A turn's request went out. The model name is here because the cost per token depends on
    /// it, and the status line shows both.
    TurnStarted { model: String },
    /// Visible answer text.
    Content(String),
    /// The model's thinking. Kept apart from the content because the two are rendered in different
    /// places and one is usually collapsed.
    Thinking(String),
    /// The model asked for a tool call. `arguments` is the raw JSON string: parsing it belongs to
    /// the tool, not to the bus.
    ToolCall { id: String, name: String, arguments: String },
    ToolResult {
        id: String,
        ok: bool,
        /// One line for the transcript. Full output belongs in the pane the tool opened.
        summary: String,
    },
    /// The conversation so far, for a session that is being continued.
    ///
    /// Sent once, before the first turn of a resumed session, because a pane that only ever hears
    /// deltas would show an empty transcript while the model answered questions about things it had
    /// been told in a conversation nobody could see.
    History(Vec<ChatMessage>),
    /// Token accounting for the turn, with the cache split out.
    Usage(TurnUsage),
    TurnFinished { reason: FinishReason },
    Error(String),
}

#[verifier::ext_equal]
pub enum AgentEventView {
    TurnStarted { model: Seq<char> },
    Content(Seq<char>),
    Thinking(Seq<char>),
    ToolCall { id: Seq<char>, name: Seq<char>, arguments: Seq<char> },
    ToolResult { id: Seq<char>, ok: bool, summary: Seq<char> },
    History(Seq<ChatMessageView>),
    Usage(TurnUsage),
    TurnFinished { reason: FinishReasonView },
    Error(Seq<char>),
}

impl View for AgentEvent {
    type V = AgentEventView;

    open spec fn view(&self) -> AgentEventView {
        match *self {
            AgentEvent::TurnStarted { model } => AgentEventView::TurnStarted { model: model@ },
            AgentEvent::Content(text) => AgentEventView::Content(text@),
            AgentEvent::Thinking(text) => AgentEventView::Thinking(text@),
            AgentEvent::ToolCall { id, name, arguments } => AgentEventView::ToolCall {
                id: id@,
                name: name@,
                arguments: arguments@,
            },
            AgentEvent::ToolResult { id, ok, summary } => AgentEventView::ToolResult {
                id: id@,
                ok,
                summary: summary@,
            },
            AgentEvent::History(messages) => AgentEventView::History(message_views(messages@)),
            AgentEvent::Usage(usage) => AgentEventView::Usage(usage),
            AgentEvent::TurnFinished { reason } => AgentEventView::TurnFinished { reason: reason@ },
            AgentEvent::Error(text) => AgentEventView::Error(text@),
        }
    }
}

/// What each event of a list says.
pub open spec fn agent_views(list: Seq<AgentEvent>) -> Seq<AgentEventView> {
    Seq::new(list.len(), |i: int| list[i]@)
}

/// What one turn cost, as the API reports it.
#[derive(Debug, Clone, Copy, PartialEq, Eq, Structural)]
pub struct TurnUsage {
    pub prompt_tokens: u64,
    /// Prompt tokens served from the prefix cache.
    pub cache_hit_tokens: u64,
    /// Prompt tokens that had to be processed.
    pub cache_miss_tokens: u64,
    pub completion_tokens: u64,
    /// How much of `completion_tokens` was reasoning. It is already counted in `completion_tokens`
    /// and must not be added to it.
    pub reasoning_tokens: u64,
}

impl Default for TurnUsage {
    fn default() -> (out: Self)
        ensures
            out == (TurnUsage {
                prompt_tokens: 0,
                cache_hit_tokens: 0,
                cache_miss_tokens: 0,
                completion_tokens: 0,
                reasoning_tokens: 0,
            }),
    {
        TurnUsage {
            prompt_tokens: 0,
            cache_hit_tokens: 0,
            cache_miss_tokens: 0,
            completion_tokens: 0,
            reasoning_tokens: 0,
        }
    }
}

/// Why the model stopped. `ToolCalls` is the one the app acts on: it runs them and asks again.
#[derive(Debug, Clone, PartialEq, Eq)]
pub enum FinishReason {
    Stop,
    ToolCalls,
    Length,
    /// `content_filter`, or a reason a newer API version introduced.
    Other(String),
}

#[verifier::ext_equal]
pub enum FinishReasonView {
    Stop,
    ToolCalls,
    Length,
    Other(Seq<char>),
}

impl View for FinishReason {
    type V = FinishReasonView;

    open spec fn view(&self) -> FinishReasonView {
        match *self {
            FinishReason::Stop => FinishReasonView::Stop,
            FinishReason::ToolCalls => FinishReasonView::ToolCalls,
            FinishReason::Length => FinishReasonView::Length,
            FinishReason::Other(text) => FinishReasonView::Other(text@),
        }
    }
}

/// Something happened to a file under the project root.
///
/// [`FileEvent::EditorWrote`] is the app's own write, and it exists so the watcher can be told which
/// changes are ours: without it every save from the editor comes back as a change, and a pane
/// that reloads on change reloads what it just wrote.
#[derive(Debug, Clone, PartialEq, Eq)]
pub enum FileEvent {
    Changed { path: String },
    Created { path: String },
    Removed { path: String },
    EditorWrote { path: String },
}

#[verifier::ext_equal]
pub enum FileEventView {
    Changed { path: Seq<char> },
    Created { path: Seq<char> },
    Removed { path: Seq<char> },
    EditorWrote { path: Seq<char> },
}

impl View for FileEvent {
    type V = FileEventView;

    open spec fn view(&self) -> FileEventView {
        match *self {
            FileEvent::Changed { path } => FileEventView::Changed { path: path@ },
            FileEvent::Created { path } => FileEventView::Created { path: path@ },
            FileEvent::Removed { path } => FileEventView::Removed { path: path@ },
            FileEvent::EditorWrote { path } => FileEventView::EditorWrote { path: path@ },
        }
    }
}

/// What each event of a list says.
pub open spec fn file_views(list: Seq<FileEvent>) -> Seq<FileEventView> {
    Seq::new(list.len(), |i: int| list[i]@)
}

#[derive(Debug, Clone, PartialEq)]
pub enum PaneEvent {
    Opened { spec: PaneSpec },
    Closed { id: PaneId },
    Focused { id: PaneId },
    /// The split that holds this pane moved: the ratio, not the size, because geometry is the
    /// tree's business.
    Ratio { id: PaneId, ratio: Ratio },
    /// A pane renamed itself after it learnt what it is showing.
    Title { id: PaneId, title: String },
}

#[verifier::ext_equal]
pub enum PaneEventView {
    Opened { spec: PaneSpecView },
    Closed { id: PaneId },
    Focused { id: PaneId },
    Ratio { id: PaneId, ratio: Ratio },
    Title { id: PaneId, title: Seq<char> },
}

impl View for PaneEvent {
    type V = PaneEventView;

    open spec fn view(&self) -> PaneEventView {
        match *self {
            PaneEvent::Opened { spec } => PaneEventView::Opened { spec: spec@ },
            PaneEvent::Closed { id } => PaneEventView::Closed { id },
            PaneEvent::Focused { id } => PaneEventView::Focused { id },
            PaneEvent::Ratio { id, ratio } => PaneEventView::Ratio { id, ratio },
            PaneEvent::Title { id, title } => PaneEventView::Title { id, title: title@ },
        }
    }
}

/// What each event of a list says.
pub open spec fn pane_views(list: Seq<PaneEvent>) -> Seq<PaneEventView> {
    Seq::new(list.len(), |i: int| list[i]@)
}

#[derive(Debug, Clone, PartialEq, Eq)]
pub enum SessionEvent {
    Started { id: String },
    Saved { id: String, path: String },
    Restored { id: String },
    Branched { from: String, to: String },
}

/// What goes to and from a terminal.
#[derive(Debug, Clone, PartialEq, Eq)]
pub enum PtyEvent {
    /// A command started in this pane.
    Started { id: PaneId, title: String },
    Output { id: PaneId, bytes: Vec<u8> },
    /// It ended; without a code when it was killed.
    Exited { id: PaneId, code: Option<i32> },
    /// What was typed into the pane.
    Input { id: PaneId, bytes: Vec<u8> },
    Resize { id: PaneId, rows: u16, cols: u16 },
    /// The pane was closed: whatever runs in it has to stop.
    Kill { id: PaneId },
}

#[verifier::ext_equal]
pub enum PtyEventView {
    Started { id: PaneId, title: Seq<char> },
    Output { id: PaneId, bytes: Seq<u8> },
    Exited { id: PaneId, code: Option<i32> },
    Input { id: PaneId, bytes: Seq<u8> },
    Resize { id: PaneId, rows: u16, cols: u16 },
    Kill { id: PaneId },
}

impl View for PtyEvent {
    type V = PtyEventView;

    open spec fn view(&self) -> PtyEventView {
        match *self {
            PtyEvent::Started { id, title } => PtyEventView::Started { id, title: title@ },
            PtyEvent::Output { id, bytes } => PtyEventView::Output { id, bytes: bytes@ },
            PtyEvent::Exited { id, code } => PtyEventView::Exited { id, code },
            PtyEvent::Input { id, bytes } => PtyEventView::Input { id, bytes: bytes@ },
            PtyEvent::Resize { id, rows, cols } => PtyEventView::Resize { id, rows, cols },
            PtyEvent::Kill { id } => PtyEventView::Kill { id },
        }
    }
}

/// Every event, in one type, because a subscriber wants one stream rather than five.
#[derive(Debug, Clone, PartialEq)]
pub enum Event {
    Agent(AgentEvent),
    File(FileEvent),
    Pane(PaneEvent),
    Session(SessionEvent),
    Pty(PtyEvent),
}

impl From<AgentEvent> for Event {
    fn from(event: AgentEvent) -> (out: Self) {
        Event::Agent(event)
    }
}

impl vstd::std_specs::convert::FromSpecImpl<AgentEvent> for Event {
    open spec fn obeys_from_spec() -> bool {
        true
    }

    open spec fn from_spec(event: AgentEvent) -> Event {
        Event::Agent(event)
    }
}

impl From<FileEvent> for Event {
    fn from(event: FileEvent) -> (out: Self) {
        Event::File(event)
    }
}

impl vstd::std_specs::convert::FromSpecImpl<FileEvent> for Event {
    open spec fn obeys_from_spec() -> bool {
        true
    }

    open spec fn from_spec(event: FileEvent) -> Event {
        Event::File(event)
    }
}

impl From<PaneEvent> for Event {
    fn from(event: PaneEvent) -> (out: Self) {
        Event::Pane(event)
    }
}

impl vstd::std_specs::convert::FromSpecImpl<PaneEvent> for Event {
    open spec fn obeys_from_spec() -> bool {
        true
    }

    open spec fn from_spec(event: PaneEvent) -> Event {
        Event::Pane(event)
    }
}

impl From<SessionEvent> for Event {
    fn from(event: SessionEvent) -> (out: Self) {
        Event::Session(event)
    }
}

impl vstd::std_specs::convert::FromSpecImpl<SessionEvent> for Event {
    open spec fn obeys_from_spec() -> bool {
        true
    }

    open spec fn from_spec(event: SessionEvent) -> Event {
        Event::Session(event)
    }
}

impl From<PtyEvent> for Event {
    fn from(event: PtyEvent) -> (out: Self) {
        Event::Pty(event)
    }
}

impl vstd::std_specs::convert::FromSpecImpl<PtyEvent> for Event {
    open spec fn obeys_from_spec() -> bool {
        true
    }

    open spec fn from_spec(event: PtyEvent) -> Event {
        Event::Pty(event)
    }
}

} // verus!
