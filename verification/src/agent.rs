//! The turn loop: ask, stream, run what the model asked for, ask again.
//!
//! A [`Run`] answers the last message in a history and leaves that history longer than it found it.
//! It says what to do next (ask the model, run a tool, stop) and is told what came of it; everything
//! a user watches is an event it hands out.
//!
//! Three decisions, each of which is a bug the other way round:
//!
//! - **A tool call is only announced once it is whole.** The API streams a call in fragments (id and
//!   name first, arguments accumulating after), so a [`Turn`] reassembles by index and the calls are
//!   announced after the stream ends. A transcript that showed fragments would show arguments that
//!   were never the argument.
//! - **Tools run in the order the model asked for them.** Sequential, not parallel: two calls in
//!   one turn are usually a read that the next call depends on.
//! - **A turn that asks for tools does not end.** The loop appends the assistant's tool calls, runs
//!   them, appends one `tool` message per result, and asks again, up to
//!   [`AgentConfig::max_rounds`], because a model that keeps asking for the same failing call must
//!   not be able to run forever. Hitting the cap is reported as an error event, not silence.

use vstd::prelude::*;

use crate::event::{
    agent_views, AgentEvent, AgentEventView, FinishReason, FinishReasonView, TurnUsage,
};
use crate::message::{
    call_views, enforce_reasoning_replay, message_views, patch_all, replay_model,
    requires_reasoning_replay, ChatMessage, ChatMessageView, Role, ToolCall, ToolCallFunction,
    ToolCallView,
};
use crate::stream::{
    FinishReason as ApiFinish, FinishReasonView as ApiFinishView, StreamEvent, StreamEventView,
};
use crate::text::{blank, copy, copy_opt, count_of, decimal, opt_view};
use crate::tools::set::{ToolOutcome, ToolOutcomeView};
use crate::usage::Usage;

verus! {

/// How many ask-and-run cycles one turn may take before the loop stops on its own.
///
/// High enough for real work (a dozen file reads and edits in one turn is ordinary) and finite,
/// because the failure it bounds is a model looping on a call that keeps failing.
pub const DEFAULT_MAX_ROUNDS: usize = 25;

/// How the loop is set up.
#[derive(Debug, Clone, PartialEq, Eq)]
pub struct AgentConfig {
    /// The model name sent to the API, and the name the reasoning-replay rule is looked up under.
    pub model: String,
    /// The system prompt, which is the first message of every request.
    pub system: String,
    pub max_rounds: usize,
}

#[verifier::ext_equal]
pub struct AgentConfigView {
    pub model: Seq<char>,
    pub system: Seq<char>,
    pub max_rounds: usize,
}

impl View for AgentConfig {
    type V = AgentConfigView;

    open spec fn view(&self) -> AgentConfigView {
        AgentConfigView {
            model: self.model@,
            system: self.system@,
            max_rounds: self.max_rounds,
        }
    }
}

impl AgentConfig {
    pub fn new(model: &str, system: &str) -> (out: Self)
        ensures
            out@ == (AgentConfigView {
                model: model@,
                system: system@,
                max_rounds: DEFAULT_MAX_ROUNDS,
            }),
    {
        AgentConfig { model: copy(model), system: copy(system), max_rounds: DEFAULT_MAX_ROUNDS }
    }

    pub fn with_max_rounds(self, max_rounds: usize) -> (out: Self)
        ensures
            out@ == (AgentConfigView { max_rounds, ..self@ }),
    {
        AgentConfig { model: self.model, system: self.system, max_rounds }
    }
}

// ---------------------------------------------------------------------------------------------
// One streamed turn

/// A tool call as far as it has arrived.
#[derive(Debug, Clone, PartialEq, Eq)]
pub struct PartialCall {
    pub id: Option<String>,
    pub name: Option<String>,
    pub arguments: String,
}

#[verifier::ext_equal]
pub struct PartialCallView {
    pub id: Option<Seq<char>>,
    pub name: Option<Seq<char>>,
    pub arguments: Seq<char>,
}

impl View for PartialCall {
    type V = PartialCallView;

    open spec fn view(&self) -> PartialCallView {
        PartialCallView {
            id: opt_view(self.id),
            name: opt_view(self.name),
            arguments: self.arguments@,
        }
    }
}

/// The later of two texts that says anything.
pub open spec fn newer(held: Option<Seq<char>>, piece: Option<Seq<char>>) -> Option<Seq<char>> {
    match piece {
        Some(text) => if text.len() > 0 {
            Some(text)
        } else {
            held
        },
        None => held,
    }
}

impl PartialCallView {
    pub open spec fn empty() -> PartialCallView {
        PartialCallView { id: None, name: None, arguments: Seq::empty() }
    }

    /// With one more fragment.
    ///
    /// Only a non-empty id or name counts: they arrive in the first fragment and later ones repeat
    /// them as empty, so taking the last one seen would erase the tool's name.
    pub open spec fn with(
        self,
        id: Option<Seq<char>>,
        name: Option<Seq<char>>,
        arguments: Option<Seq<char>>,
    ) -> PartialCallView {
        PartialCallView {
            id: newer(self.id, id),
            name: newer(self.name, name),
            arguments: match arguments {
                Some(more) => self.arguments + more,
                None => self.arguments,
            },
        }
    }

    /// The whole call, under the index it came with.
    pub open spec fn call(self, index: usize) -> ToolCallView {
        ToolCallView {
            id: match self.id {
                Some(id) => id,
                None => "call_"@ + decimal(index as nat),
            },
            kind: "function"@,
            name: match self.name {
                Some(name) => name,
                None => Seq::empty(),
            },
            arguments: self.arguments,
        }
    }
}

/// How many of the first `k` calls have a smaller index.
pub open spec fn place(calls: Seq<(usize, PartialCallView)>, index: usize, k: int) -> int
    decreases k,
{
    if k <= 0 {
        0
    } else if calls[k - 1].0 < index {
        k
    } else {
        place(calls, index, k - 1)
    }
}

/// The call under an index.
pub open spec fn call_at(calls: Seq<(usize, PartialCallView)>, index: usize) -> Option<
    PartialCallView,
> {
    let at = place(calls, index, calls.len() as int);
    if at < calls.len() && calls[at].0 == index {
        Some(calls[at].1)
    } else {
        None
    }
}

/// The calls with the one under an index set.
pub open spec fn with_call(
    calls: Seq<(usize, PartialCallView)>,
    index: usize,
    call: PartialCallView,
) -> Seq<(usize, PartialCallView)> {
    let at = place(calls, index, calls.len() as int);
    if at < calls.len() && calls[at].0 == index {
        calls.update(at, (index, call))
    } else {
        calls.insert(at, (index, call))
    }
}

/// Each index once, in order.
pub open spec fn keyed(calls: Seq<(usize, PartialCallView)>) -> bool {
    forall|i: int, j: int| 0 <= i < j < calls.len() ==> (#[trigger] calls[i]).0 < (#[trigger] calls[j]).0
}

/// What one streamed turn said, before it is turned into messages and events.
#[derive(Debug)]
pub struct Turn {
    content: String,
    reasoning: String,
    /// Tool call fragments by the index the API gave them, in order of that index, so out-of-order
    /// pieces still reassemble into the call the model meant.
    calls: Vec<(usize, PartialCall)>,
    finish: Option<ApiFinish>,
    error: Option<String>,
}

#[verifier::ext_equal]
pub struct TurnView {
    pub content: Seq<char>,
    pub reasoning: Seq<char>,
    pub calls: Seq<(usize, PartialCallView)>,
    pub finish: Option<ApiFinishView>,
    pub error: Option<Seq<char>>,
}

pub open spec fn partial_views(calls: Seq<(usize, PartialCall)>) -> Seq<(usize, PartialCallView)> {
    Seq::new(calls.len(), |i: int| (calls[i].0, calls[i].1@))
}

impl View for Turn {
    type V = TurnView;

    closed spec fn view(&self) -> TurnView {
        TurnView {
            content: self.content@,
            reasoning: self.reasoning@,
            calls: partial_views(self.calls@),
            finish: match self.finish {
                Some(reason) => Some(reason@),
                None => None,
            },
            error: opt_view(self.error),
        }
    }
}

/// What a turn cost, in the engine's vocabulary.
pub open spec fn turn_usage(usage: Usage) -> TurnUsage {
    TurnUsage {
        prompt_tokens: usage.input_tokens,
        cache_hit_tokens: usage.prompt_cache_hit_tokens,
        cache_miss_tokens: usage.prompt_cache_miss_tokens,
        completion_tokens: usage.output_tokens,
        reasoning_tokens: usage.reasoning_tokens,
    }
}

/// What a turn cost, in the engine's vocabulary.
///
/// Field by field rather than by re-exporting the API's struct: the two layers are allowed to
/// change shape independently, and a cost that stops being reported should be a compile error here
/// rather than a zero on a status line.
pub fn usage_into_engine(usage: Usage) -> (out: TurnUsage)
    ensures
        out == turn_usage(usage),
{
    TurnUsage {
        prompt_tokens: usage.input_tokens,
        cache_hit_tokens: usage.prompt_cache_hit_tokens,
        cache_miss_tokens: usage.prompt_cache_miss_tokens,
        completion_tokens: usage.output_tokens,
        reasoning_tokens: usage.reasoning_tokens,
    }
}

/// The API's reason for stopping, in the engine's vocabulary.
pub open spec fn engine_reason(reason: ApiFinishView) -> FinishReasonView {
    match reason {
        ApiFinishView::Stop => FinishReasonView::Stop,
        ApiFinishView::ToolCalls => FinishReasonView::ToolCalls,
        ApiFinishView::Length => FinishReasonView::Length,
        ApiFinishView::ContentFilter => FinishReasonView::Other("content_filter"@),
        ApiFinishView::Other(other) => FinishReasonView::Other(other),
    }
}

/// The API's reason for stopping, in the engine's vocabulary.
pub fn reason_into_engine(reason: &ApiFinish) -> (out: FinishReason)
    ensures
        out@ == engine_reason(reason@),
{
    match reason {
        ApiFinish::Stop => FinishReason::Stop,
        ApiFinish::ToolCalls => FinishReason::ToolCalls,
        ApiFinish::Length => FinishReason::Length,
        ApiFinish::ContentFilter => FinishReason::Other(copy("content_filter")),
        ApiFinish::Other(other) => FinishReason::Other(copy(other)),
    }
}

impl TurnView {
    pub open spec fn empty() -> TurnView {
        TurnView {
            content: Seq::empty(),
            reasoning: Seq::empty(),
            calls: Seq::empty(),
            finish: None,
            error: None,
        }
    }

    pub open spec fn wf(self) -> bool {
        keyed(self.calls)
    }

    /// The turn once an event has come in.
    pub open spec fn after(self, event: StreamEventView) -> TurnView {
        match event {
            StreamEventView::Content(delta) => TurnView { content: self.content + delta, ..self },
            StreamEventView::Reasoning(delta) => TurnView {
                reasoning: self.reasoning + delta,
                ..self
            },
            StreamEventView::ToolCallDelta { index, id, name, arguments } => {
                let held = match call_at(self.calls, index) {
                    Some(held) => held,
                    None => PartialCallView::empty(),
                };
                TurnView {
                    calls: with_call(self.calls, index, held.with(id, name, arguments)),
                    ..self
                }
            },
            StreamEventView::Usage(_) => self,
            StreamEventView::Finished(reason) => TurnView { finish: Some(reason), ..self },
            StreamEventView::Error(message) => TurnView { error: Some(message), ..self },
        }
    }

    /// The whole calls, in order of their index.
    pub open spec fn whole_calls(self) -> Seq<ToolCallView> {
        Seq::new(self.calls.len(), |i: int| self.calls[i].1.call(self.calls[i].0))
    }

    /// The assistant message this turn becomes.
    pub open spec fn message(self) -> ChatMessageView {
        ChatMessageView {
            role: Role::Assistant,
            content: Some(self.content),
            reasoning_content: if self.reasoning.len() > 0 {
                Some(self.reasoning)
            } else {
                None
            },
            tool_calls: self.whole_calls(),
            tool_call_id: None,
        }
    }
}

/// What is told as an event comes in: the parts that are already final. Tool calls are left for the
/// end, when they are whole.
pub open spec fn told(event: StreamEventView) -> Option<AgentEventView> {
    match event {
        StreamEventView::Content(delta) => Some(AgentEventView::Content(delta)),
        StreamEventView::Reasoning(delta) => Some(AgentEventView::Thinking(delta)),
        StreamEventView::Usage(usage) => Some(AgentEventView::Usage(turn_usage(usage))),
        _ => None,
    }
}

/// What an event that may be missing says.
pub open spec fn opt_event(event: Option<AgentEvent>) -> Option<AgentEventView> {
    match event {
        Some(event) => Some(event@),
        None => None,
    }
}

fn take_newer(held: Option<String>, piece: Option<String>) -> (out: Option<String>)
    ensures
        opt_view(out) == newer(opt_view(held), opt_view(piece)),
{
    match piece {
        Some(text) => if text.as_str().is_empty() {
            held
        } else {
            Some(text)
        },
        None => held,
    }
}

proof fn lemma_place(calls: Seq<(usize, PartialCallView)>, index: usize, k: int)
    requires
        0 <= k <= calls.len(),
    ensures
        0 <= place(calls, index, k) <= k,
        place(calls, index, k) > 0 ==> calls[place(calls, index, k) - 1].0 < index,
        forall|i: int| place(calls, index, k) <= i < k ==> (#[trigger] calls[i]).0 >= index,
    decreases k,
{
    if k > 0 && calls[k - 1].0 >= index {
        lemma_place(calls, index, k - 1);
    }
}

proof fn lemma_with_call(
    calls: Seq<(usize, PartialCallView)>,
    index: usize,
    call: PartialCallView,
)
    requires
        keyed(calls),
    ensures
        keyed(with_call(calls, index, call)),
        forall|other: usize|
            #[trigger] call_at(with_call(calls, index, call), other) == if other == index {
                Some(call)
            } else {
                call_at(calls, other)
            },
{
    let at = place(calls, index, calls.len() as int);
    let now = with_call(calls, index, call);
    lemma_place(calls, index, calls.len() as int);
    assert(forall|i: int| 0 <= i < at ==> (#[trigger] calls[i]).0 < index) by {
        assert forall|i: int| 0 <= i < at implies (#[trigger] calls[i]).0 < index by {
            if i < at - 1 {
                assert(calls[i].0 < calls[at - 1].0);
            }
        }
    }
    let updated = at < calls.len() && calls[at].0 == index;
    assert forall|i: int, j: int| 0 <= i < j < now.len() implies (#[trigger] now[i]).0 < (
    #[trigger] now[j]).0 by {
        if updated {
            assert(now[i].0 == calls[i].0 && now[j].0 == calls[j].0);
        } else {
            if i < at {
                assert(now[i] == calls[i]);
            }
            if j > at {
                assert(now[j] == calls[j - 1]);
                assert(calls[j - 1].0 > index) by {
                    if j - 1 > at {
                        assert(calls[at].0 < calls[j - 1].0);
                    }
                }
            }
        }
    }
    assert forall|other: usize|
        #[trigger] call_at(now, other) == if other == index {
            Some(call)
        } else {
            call_at(calls, other)
        } by {
        lemma_call_at(now, other);
        lemma_call_at(calls, other);
        if other == index {
            assert(now[at] == (index, call));
        } else {
            if call_at(calls, other) is Some {
                let k = choose|k: int|
                    0 <= k < calls.len() && #[trigger] calls[k] == (
                        other,
                        call_at(calls, other)->0,
                    );
                let to = if updated || k < at {
                    k
                } else {
                    k + 1
                };
                assert(now[to] == calls[k]);
            }
            if call_at(now, other) is Some {
                let k = choose|k: int|
                    0 <= k < now.len() && #[trigger] now[k] == (other, call_at(now, other)->0);
                let from = if updated || k < at {
                    k
                } else {
                    k - 1
                };
                assert(calls[from] == now[k]);
            }
        }
    }
}

/// An index is found exactly where it stands.
proof fn lemma_call_at(calls: Seq<(usize, PartialCallView)>, index: usize)
    requires
        keyed(calls),
    ensures
        call_at(calls, index) is Some ==> exists|k: int|
            0 <= k < calls.len() && #[trigger] calls[k] == (index, call_at(calls, index)->0),
        forall|k: int|
            0 <= k < calls.len() && (#[trigger] calls[k]).0 == index ==> call_at(calls, index)
                == Some(calls[k].1),
{
    let at = place(calls, index, calls.len() as int);
    lemma_place(calls, index, calls.len() as int);
    if call_at(calls, index) is Some {
        assert(calls[at] == (index, call_at(calls, index)->0));
    }
    assert forall|k: int| 0 <= k < calls.len() && (#[trigger] calls[k]).0 == index implies call_at(
        calls,
        index,
    ) == Some(calls[k].1) by {
        if k < at {
            if k < at - 1 {
                assert(calls[k].0 < calls[at - 1].0);
            }
        } else if k > at {
            assert(calls[at].0 < calls[k].0);
        }
    }
}

impl Default for Turn {
    fn default() -> (out: Self)
        ensures
            out@ == TurnView::empty(),
    {
        let out = Turn {
            content: String::new(),
            reasoning: String::new(),
            calls: Vec::new(),
            finish: None,
            error: None,
        };
        assert(out@.content =~= Seq::<char>::empty());
        assert(out@.reasoning =~= Seq::<char>::empty());
        assert(out@.calls =~= Seq::<(usize, PartialCallView)>::empty());
        out
    }
}

impl Turn {
    #[verifier::type_invariant]
    pub closed spec fn sound(self) -> bool {
        self@.wf()
    }

    pub fn new() -> (out: Self)
        ensures
            out@ == TurnView::empty(),
    {
        Turn::default()
    }

    /// Take one event: keep what it carries, and hand out what is already final in it (`content`,
    /// `reasoning`, accounting), leaving the tool calls for the end.
    pub fn absorb(&mut self, event: StreamEvent) -> (out: Option<AgentEvent>)
        ensures
            final(self)@ == old(self)@.after(event@),
            opt_event(out) == told(event@),
            final(self)@.wf(),
    {
        proof {
            use_type_invariant(&*self);
        }
        match event {
            StreamEvent::Content(delta) => {
                let mut content = String::new();
                std::mem::swap(&mut self.content, &mut content);
                content.append(&delta);
                self.content = content;
                Some(AgentEvent::Content(delta))
            },
            StreamEvent::Reasoning(delta) => {
                let mut reasoning = String::new();
                std::mem::swap(&mut self.reasoning, &mut reasoning);
                reasoning.append(&delta);
                self.reasoning = reasoning;
                Some(AgentEvent::Thinking(delta))
            },
            StreamEvent::ToolCallDelta { index, id, name, arguments } => {
                self.absorb_call(index, id, name, arguments);
                None
            },
            StreamEvent::Usage(usage) => Some(AgentEvent::Usage(usage_into_engine(usage))),
            StreamEvent::Finished(reason) => {
                self.finish = Some(reason);
                None
            },
            StreamEvent::Error(message) => {
                self.error = Some(message);
                None
            },
        }
    }

    fn absorb_call(
        &mut self,
        index: usize,
        id: Option<String>,
        name: Option<String>,
        arguments: Option<String>,
    )
        ensures
            final(self)@ == old(self)@.after(
                StreamEventView::ToolCallDelta {
                    index,
                    id: opt_view(id),
                    name: opt_view(name),
                    arguments: opt_view(arguments),
                },
            ),
            final(self)@.wf(),
    {
        let mut before = Turn::default();
        std::mem::swap(self, &mut before);
        proof {
            use_type_invariant(&before);
        }
        let ghost was = before@;
        let Turn { content, reasoning, mut calls, finish, error } = before;
        let ghost held = partial_views(calls@);
        let mut at: usize = calls.len();
        while at > 0 && calls[at - 1].0 >= index
            invariant
                at <= calls@.len(),
                held == partial_views(calls@),
                place(held, index, held.len() as int) == place(held, index, at as int),
            decreases at,
        {
            assert(held[at - 1].0 == calls@[at - 1].0);
            at -= 1;
        }
        proof {
            lemma_place(held, index, held.len() as int);
            if at > 0 {
                assert(held[at - 1].0 == calls@[at - 1].0);
            }
            if at < calls@.len() {
                assert(held[at as int] == (calls@[at as int].0, calls@[at as int].1@));
            }
        }
        let known: bool = at < calls.len() && calls[at].0 == index;
        let partial: PartialCall = if known {
            let (_, partial) = calls.remove(at);
            partial
        } else {
            PartialCall { id: None, name: None, arguments: String::new() }
        };
        let ghost old_call = partial@;
        assert(known ==> old_call == held[at as int].1);
        assert(!known ==> old_call =~= PartialCallView::empty());
        let PartialCall { id: held_id, name: held_name, arguments: mut words } = partial;
        match &arguments {
            Some(more) => {
                words.append(more);
            },
            None => {},
        }
        let partial = PartialCall {
            id: take_newer(held_id, id),
            name: take_newer(held_name, name),
            arguments: words,
        };
        assert(partial@ =~= old_call.with(opt_view(id), opt_view(name), opt_view(arguments)));
        calls.insert(at, (index, partial));
        proof {
            lemma_with_call(held, index, partial@);
            assert(partial_views(calls@) =~= with_call(held, index, partial@));
        }
        *self = Turn { content, reasoning, calls, finish, error };
    }

    /// The whole calls, in order of their index.
    pub fn calls(&self) -> (out: Vec<ToolCall>)
        ensures
            call_views(out@) == self@.whole_calls(),
    {
        let mut out: Vec<ToolCall> = Vec::new();
        let mut i: usize = 0;
        while i < self.calls.len()
            invariant
                i <= self.calls@.len(),
                out@.len() == i,
                forall|k: int|
                    0 <= k < i ==> (#[trigger] out@[k])@ == self@.calls[k].1.call(self@.calls[k].0),
            decreases self.calls@.len() - i,
        {
            let index: usize = self.calls[i].0;
            let partial = &self.calls[i].1;
            let id: String = match &partial.id {
                Some(id) => copy(id),
                None => {
                    let mut id = copy("call_");
                    id.append(&count_of(index));
                    id
                },
            };
            let name: String = match &partial.name {
                Some(name) => copy(name),
                None => {
                    let name = String::new();
                    assert(name@ =~= Seq::<char>::empty());
                    name
                },
            };
            let call = ToolCall {
                id,
                kind: copy("function"),
                function: ToolCallFunction { name, arguments: copy(&partial.arguments) },
            };
            assert(self@.calls[i as int] == (index, partial@));
            assert(call@ =~= partial@.call(index));
            out.push(call);
            i += 1;
        }
        assert(call_views(out@) =~= self@.whole_calls());
        out
    }

    /// The assistant message this turn becomes.
    pub fn assistant_message(&self) -> (out: ChatMessage)
        ensures
            out@ == self@.message(),
    {
        let mut message = ChatMessage::assistant_with_tools(&self.content, self.calls());
        if !self.reasoning.as_str().is_empty() {
            message.reasoning_content = Some(copy(&self.reasoning));
        }
        message
    }

    /// What went wrong in the stream, if anything did.
    pub fn error(&self) -> (out: Option<String>)
        ensures
            opt_view(out) == self@.error,
    {
        copy_opt(&self.error)
    }

    /// Why the model stopped; a stream that does not say has simply stopped.
    pub fn reason(&self) -> (out: FinishReason)
        ensures
            out@ == engine_reason(
                match self@.finish {
                    Some(reason) => reason,
                    None => ApiFinishView::Stop,
                },
            ),
    {
        match &self.finish {
            Some(reason) => reason_into_engine(reason),
            None => FinishReason::Stop,
        }
    }
}

// ---------------------------------------------------------------------------------------------
// The loop

/// Where a run stands.
#[derive(Debug, Clone, PartialEq)]
pub enum Phase {
    /// The history is ready to be sent: ask the model.
    Asking { round: usize },
    /// The model asked for these; the one at `next` is to be run.
    Calling { round: usize, calls: Vec<ToolCall>, next: usize },
    Finished,
}

#[verifier::ext_equal]
pub enum PhaseView {
    Asking { round: int },
    Calling { round: int, calls: Seq<ToolCallView>, next: int },
    Finished,
}

impl View for Phase {
    type V = PhaseView;

    open spec fn view(&self) -> PhaseView {
        match *self {
            Phase::Asking { round } => PhaseView::Asking { round: round as int },
            Phase::Calling { round, calls, next } => PhaseView::Calling {
                round: round as int,
                calls: call_views(calls@),
                next: next as int,
            },
            Phase::Finished => PhaseView::Finished,
        }
    }
}

/// A history with the system message in front, if it is not already there.
pub open spec fn with_system(
    messages: Seq<ChatMessageView>,
    system: Seq<char>,
) -> Seq<ChatMessageView> {
    if messages.len() > 0 && messages[0].role == Role::System {
        messages
    } else {
        seq![ChatMessageView::plain(Role::System, system)] + messages
    }
}

/// A history as this model has to be sent it.
pub open spec fn replayed(messages: Seq<ChatMessageView>, model: Seq<char>) -> Seq<ChatMessageView> {
    if replay_model(model) {
        patch_all(messages)
    } else {
        messages
    }
}

/// What a step of a run leaves: where it stands, the history, and what was told.
#[verifier::ext_equal]
pub struct StepView {
    pub phase: PhaseView,
    pub messages: Seq<ChatMessageView>,
    pub events: Seq<AgentEventView>,
}

/// The beginning of a run: the history that is handed in is made fit to be sent. What the run itself
/// adds is fit as it is.
pub open spec fn start_step(config: AgentConfigView, messages: Seq<ChatMessageView>) -> StepView {
    let history = with_system(messages, config.system);
    let events = seq![AgentEventView::TurnStarted { model: config.model }];
    if config.max_rounds == 0 {
        StepView { phase: PhaseView::Finished, messages: history, events }
    } else {
        StepView {
            phase: PhaseView::Asking { round: 1 },
            messages: replayed(history, config.model),
            events,
        }
    }
}

/// What the announcement of a whole call is.
pub open spec fn call_event(call: ToolCallView) -> AgentEventView {
    AgentEventView::ToolCall { id: call.id, name: call.name, arguments: call.arguments }
}

/// The message that a turn of a run leaves in the history. Where the model has to be sent its
/// reasoning back, a turn that asks for tools carries what it thought, even when that is nothing:
/// the placeholder is for reasoning that was never recorded, and this was.
pub open spec fn kept_message(config: AgentConfigView, turn: TurnView) -> ChatMessageView {
    ChatMessageView {
        reasoning_content: if turn.reasoning.len() > 0 || (replay_model(config.model)
            && turn.whole_calls().len() > 0) {
            Some(turn.reasoning)
        } else {
            None
        },
        ..turn.message()
    }
}

/// What happens once the model has answered. The answer is kept whatever it was: a turn that said
/// three sentences before the stream failed said three sentences.
pub open spec fn answer_step(
    config: AgentConfigView,
    round: int,
    messages: Seq<ChatMessageView>,
    turn: TurnView,
) -> StepView {
    let history = messages.push(kept_message(config, turn));
    let calls = turn.whole_calls();
    match turn.error {
        Some(error) => StepView {
            phase: PhaseView::Finished,
            messages: history,
            events: seq![AgentEventView::Error(error)],
        },
        None => if calls.len() == 0 {
            StepView {
                phase: PhaseView::Finished,
                messages: history,
                events: seq![
                    AgentEventView::TurnFinished {
                        reason: engine_reason(
                            match turn.finish {
                                Some(reason) => reason,
                                None => ApiFinishView::Stop,
                            },
                        ),
                    },
                ],
            }
        } else {
            StepView {
                phase: PhaseView::Calling { round, calls, next: 0 },
                messages: history,
                events: Seq::new(calls.len(), |i: int| call_event(calls[i])),
            }
        },
    }
}

/// What is said when the rounds run out.
pub open spec fn out_of_rounds(max_rounds: usize) -> Seq<AgentEventView> {
    seq![
        AgentEventView::Error(
            "stopped after "@ + decimal(max_rounds as nat)
                + " rounds of tool calls without an answer"@,
        ),
        AgentEventView::TurnFinished { reason: FinishReasonView::Other("max_rounds"@) },
    ]
}

/// What happens once a tool has run: its result goes into the history under the call it answers.
/// After the last call the model is asked again, unless the rounds have run out.
pub open spec fn call_step(
    config: AgentConfigView,
    round: int,
    calls: Seq<ToolCallView>,
    next: int,
    messages: Seq<ChatMessageView>,
    outcome: ToolOutcomeView,
) -> StepView {
    let id = calls[next].id;
    let history = messages.push(
        ChatMessageView {
            tool_call_id: Some(id),
            ..ChatMessageView::plain(Role::Tool, outcome.content)
        },
    );
    let result = seq![
        AgentEventView::ToolResult { id, ok: outcome.ok, summary: outcome.summary },
    ];
    if next + 1 < calls.len() {
        StepView {
            phase: PhaseView::Calling { round, calls, next: next + 1 },
            messages: history,
            events: result,
        }
    } else if round >= config.max_rounds {
        StepView {
            phase: PhaseView::Finished,
            messages: history,
            events: result + out_of_rounds(config.max_rounds),
        }
    } else {
        StepView {
            phase: PhaseView::Asking { round: round + 1 },
            messages: history,
            events: result,
        }
    }
}

/// Rounds are within their bound, and a call that is to be run is one of the calls.
pub open spec fn phase_wf(config: AgentConfigView, phase: PhaseView) -> bool {
    match phase {
        PhaseView::Asking { round } => 1 <= round <= config.max_rounds,
        PhaseView::Calling { round, calls, next } => 1 <= round <= config.max_rounds && 0 <= next
            < calls.len(),
        PhaseView::Finished => true,
    }
}

/// One run of the loop over a history.
#[derive(Debug)]
pub struct Run {
    config: AgentConfig,
    phase: Phase,
}

#[verifier::ext_equal]
pub struct RunView {
    pub config: AgentConfigView,
    pub phase: PhaseView,
}

impl View for Run {
    type V = RunView;

    closed spec fn view(&self) -> RunView {
        RunView { config: self.config@, phase: self.phase@ }
    }
}

/// What a run waits for.
#[derive(Debug, Clone, PartialEq)]
pub enum Next {
    /// Send the history to the model and hand the turn to [`Run::answered`].
    Ask,
    /// Run this call and hand its outcome to [`Run::called`].
    Call(ToolCall),
    /// Nothing more.
    Stop,
}

fn push_event(events: &mut Vec<AgentEvent>, event: AgentEvent)
    ensures
        agent_views(final(events)@) == agent_views(old(events)@).push(event@),
{
    events.push(event);
    assert(agent_views(events@) =~= agent_views(old(events)@).push(event@));
}

fn no_events() -> (out: Vec<AgentEvent>)
    ensures
        agent_views(out@) == Seq::<AgentEventView>::empty(),
{
    let out: Vec<AgentEvent> = Vec::new();
    assert(agent_views(out@) =~= Seq::<AgentEventView>::empty());
    out
}

fn push_message(messages: &mut Vec<ChatMessage>, message: ChatMessage)
    ensures
        message_views(final(messages)@) == message_views(old(messages)@).push(message@),
{
    messages.push(message);
    assert(message_views(messages@) =~= message_views(old(messages)@).push(message@));
}

/// The history as the model has to be sent it.
fn replay(messages: &mut Vec<ChatMessage>, model: &str)
    ensures
        message_views(final(messages)@) == replayed(message_views(old(messages)@), model@),
{
    let _ = enforce_reasoning_replay(messages, model);
}

impl Run {
    #[verifier::type_invariant]
    pub closed spec fn sound(self) -> bool {
        phase_wf(self.config@, self.phase@)
    }

    /// Begin: the system message is put in front if it is not already there, and the history is made
    /// fit to be sent.
    pub fn start(config: AgentConfig, messages: &mut Vec<ChatMessage>) -> (out: (
        Run,
        Vec<AgentEvent>,
    ))
        ensures
            ({
                let step = start_step(config@, message_views(old(messages)@));
                &&& out.0@ == (RunView { config: config@, phase: step.phase })
                &&& message_views(final(messages)@) == step.messages
                &&& agent_views(out.1@) == step.events
            }),
    {
        let ghost before = message_views(messages@);
        let present: bool = messages.len() > 0 && messages[0].role == Role::System;
        if !present {
            messages.insert(0, ChatMessage::system(&config.system));
        }
        assert(message_views(messages@) =~= with_system(before, config@.system));
        let mut events = no_events();
        push_event(&mut events, AgentEvent::TurnStarted { model: copy(&config.model) });
        assert(agent_views(events@) =~= seq![AgentEventView::TurnStarted { model: config@.model }]);
        let phase: Phase = if config.max_rounds == 0 {
            Phase::Finished
        } else {
            replay(messages, &config.model);
            Phase::Asking { round: 1 }
        };
        (Run { config, phase }, events)
    }

    pub fn config(&self) -> (out: &AgentConfig)
        ensures
            out@ == self@.config,
    {
        &self.config
    }

    /// What the run waits for.
    pub fn next(&self) -> (out: Next)
        ensures
            match self@.phase {
                PhaseView::Asking { .. } => out is Ask,
                PhaseView::Calling { calls, next, .. } => out is Call && 0 <= next < calls.len()
                    && out->Call_0@ == calls[next],
                PhaseView::Finished => out is Stop,
            },
    {
        proof {
            use_type_invariant(self);
        }
        match &self.phase {
            Phase::Asking { .. } => Next::Ask,
            Phase::Calling { calls, next, .. } => {
                assert(call_views(calls@)[*next as int] == calls@[*next as int]@);
                Next::Call(calls[*next].duplicate())
            },
            Phase::Finished => Next::Stop,
        }
    }

    /// The model has answered.
    pub fn answered(&mut self, messages: &mut Vec<ChatMessage>, turn: &Turn) -> (out: Vec<
        AgentEvent,
    >)
        requires
            old(self)@.phase is Asking,
        ensures
            ({
                let step = answer_step(
                    old(self)@.config,
                    old(self)@.phase->Asking_round,
                    message_views(old(messages)@),
                    turn@,
                );
                &&& final(self)@ == (RunView { config: old(self)@.config, phase: step.phase })
                &&& message_views(final(messages)@) == step.messages
                &&& agent_views(out@) == step.events
            }),
    {
        proof {
            use_type_invariant(&*self);
        }
        let round: usize = match &self.phase {
            Phase::Asking { round } => *round,
            _ => 1,
        };
        let calls = turn.calls();
        let mut message = turn.assistant_message();
        if calls.len() > 0 && message.reasoning_content.is_none() && requires_reasoning_replay(
            &self.config.model,
        ) {
            // Thought nothing, and says so: an empty field, not the placeholder.
            message.reasoning_content = Some(String::new());
        }
        assert(message@ == kept_message(self@.config, turn@)) by {
            if turn@.reasoning.len() == 0 {
                assert(turn@.reasoning =~= Seq::<char>::empty());
            }
        }
        push_message(messages, message);
        let mut events = no_events();
        match turn.error() {
            Some(error) => {
                push_event(&mut events, AgentEvent::Error(error));
                assert(agent_views(events@) =~= seq![AgentEventView::Error(error@)]);
                self.phase = Phase::Finished;
                return events;
            },
            None => {},
        }
        if calls.len() == 0 {
            let reason = turn.reason();
            push_event(&mut events, AgentEvent::TurnFinished { reason });
            assert(agent_views(events@) =~= seq![
                AgentEventView::TurnFinished { reason: reason@ },
            ]);
            self.phase = Phase::Finished;
            return events;
        }
        // Whole calls only: announced after the stream ended, because until then their arguments
        // were still arriving.
        let ghost all = call_views(calls@);
        let mut i: usize = 0;
        while i < calls.len()
            invariant
                i <= calls@.len(),
                all == call_views(calls@),
                agent_views(events@) == Seq::new(i as nat, |k: int| call_event(all[k])),
            decreases calls@.len() - i,
        {
            let call = &calls[i];
            assert(all[i as int] == call@);
            let ghost before = agent_views(events@);
            push_event(
                &mut events,
                AgentEvent::ToolCall {
                    id: copy(&call.id),
                    name: copy(call.name()),
                    arguments: copy(call.arguments()),
                },
            );
            assert(agent_views(events@) =~= Seq::new((i + 1) as nat, |k: int| call_event(all[k])));
            i += 1;
        }
        self.phase = Phase::Calling { round, calls, next: 0 };
        events
    }

    /// A tool has run.
    pub fn called(&mut self, messages: &mut Vec<ChatMessage>, outcome: &ToolOutcome) -> (out: Vec<
        AgentEvent,
    >)
        requires
            old(self)@.phase is Calling,
        ensures
            ({
                let step = call_step(
                    old(self)@.config,
                    old(self)@.phase->Calling_round,
                    old(self)@.phase->Calling_calls,
                    old(self)@.phase->Calling_next,
                    message_views(old(messages)@),
                    outcome@,
                );
                &&& final(self)@ == (RunView { config: old(self)@.config, phase: step.phase })
                &&& message_views(final(messages)@) == step.messages
                &&& agent_views(out@) == step.events
            }),
    {
        proof {
            use_type_invariant(&*self);
        }
        let mut phase = Phase::Finished;
        std::mem::swap(&mut self.phase, &mut phase);
        let mut events = no_events();
        match phase {
            Phase::Calling { round, calls, next } => {
                let ghost all = call_views(calls@);
                assert(all[next as int] == calls@[next as int]@);
                let id = copy(&calls[next].id);
                push_event(
                    &mut events,
                    AgentEvent::ToolResult {
                        id: copy(&id),
                        ok: outcome.ok,
                        summary: copy(&outcome.summary),
                    },
                );
                push_message(messages, ChatMessage::tool(&id, &outcome.content));
                assert(agent_views(events@) =~= seq![
                    AgentEventView::ToolResult {
                        id: id@,
                        ok: outcome@.ok,
                        summary: outcome@.summary,
                    },
                ]);
                let count: usize = calls.len();
                if next + 1 < count {
                    self.phase = Phase::Calling { round, calls, next: next + 1 };
                } else if round >= self.config.max_rounds {
                    let ghost before = agent_views(events@);
                    let mut text = copy("stopped after ");
                    text.append(&count_of(self.config.max_rounds));
                    text.append(" rounds of tool calls without an answer");
                    push_event(&mut events, AgentEvent::Error(text));
                    push_event(
                        &mut events,
                        AgentEvent::TurnFinished {
                            reason: FinishReason::Other(copy("max_rounds")),
                        },
                    );
                    assert(agent_views(events@) =~= before + out_of_rounds(self.config.max_rounds));
                    self.phase = Phase::Finished;
                } else {
                    self.phase = Phase::Asking { round: round + 1 };
                }
            },
            _ => {},
        }
        events
    }
}

// ---------------------------------------------------------------------------------------------
// Laws

/// Two lists of calls under ascending indices that hold the same under every index are the same.
proof fn lemma_same_calls(a: Seq<(usize, PartialCallView)>, b: Seq<(usize, PartialCallView)>)
    requires
        keyed(a),
        keyed(b),
        forall|index: usize| #[trigger] call_at(a, index) == call_at(b, index),
    ensures
        a == b,
    decreases a.len(),
{
    if a.len() == 0 {
        if b.len() > 0 {
            lemma_call_at(b, b[0].0);
            assert(call_at(a, b[0].0) is None);
        }
        assert(a =~= b);
    } else {
        let i = a.len() - 1;
        lemma_call_at(a, a[i].0);
        lemma_call_at(b, a[i].0);
        assert(call_at(b, a[i].0) == Some(a[i].1));
        let j = choose|j: int| 0 <= j < b.len() && #[trigger] b[j] == (a[i].0, a[i].1);
        let last = b.len() - 1;
        lemma_call_at(b, b[last].0);
        lemma_call_at(a, b[last].0);
        assert(call_at(a, b[last].0) == Some(b[last].1));
        let k = choose|k: int| 0 <= k < a.len() && #[trigger] a[k] == (b[last].0, b[last].1);
        assert(j == last) by {
            if j < last {
                assert(b[j].0 < b[last].0);
                if k < i {
                    assert(a[k].0 < a[i].0);
                }
            }
        }
        assert(a[i] == b[last]);
        let x = a.drop_last();
        let y = b.drop_last();
        assert(keyed(x)) by {
            assert forall|p: int, q: int| 0 <= p < q < x.len() implies (#[trigger] x[p]).0 < (
            #[trigger] x[q]).0 by {
                assert(x[p] == a[p] && x[q] == a[q]);
            }
        }
        assert(keyed(y)) by {
            assert forall|p: int, q: int| 0 <= p < q < y.len() implies (#[trigger] y[p]).0 < (
            #[trigger] y[q]).0 by {
                assert(y[p] == b[p] && y[q] == b[q]);
            }
        }
        assert forall|index: usize| #[trigger] call_at(x, index) == call_at(y, index) by {
            lemma_call_at(x, index);
            lemma_call_at(y, index);
            lemma_call_at(a, index);
            lemma_call_at(b, index);
            assert(call_at(a, index) == call_at(b, index));
            if call_at(x, index) is Some {
                let p = choose|p: int|
                    0 <= p < x.len() && #[trigger] x[p] == (index, call_at(x, index)->0);
                assert(a[p] == x[p]);
                assert(a[p].0 < a[i].0);
                let q = choose|q: int|
                    0 <= q < b.len() && #[trigger] b[q] == (index, call_at(b, index)->0);
                assert(y[q] == b[q]);
            }
            if call_at(y, index) is Some {
                let p = choose|p: int|
                    0 <= p < y.len() && #[trigger] y[p] == (index, call_at(y, index)->0);
                assert(b[p] == y[p]);
                assert(b[p].0 < b[last].0);
                let q = choose|q: int|
                    0 <= q < a.len() && #[trigger] a[q] == (index, call_at(a, index)->0);
                assert(x[q] == a[q]);
            }
        }
        lemma_same_calls(x, y);
        assert(a =~= x.push(a[i]));
        assert(b =~= y.push(b[last]));
    }
}

/// Fragments of different calls can come in either order: each goes to the call it belongs to.
pub proof fn law_fragments_reassemble_by_index(
    turn: TurnView,
    a: usize,
    b: usize,
    id_a: Option<Seq<char>>,
    name_a: Option<Seq<char>>,
    more_a: Option<Seq<char>>,
    id_b: Option<Seq<char>>,
    name_b: Option<Seq<char>>,
    more_b: Option<Seq<char>>,
)
    requires
        turn.wf(),
        a != b,
    ensures
        ({
            let first = StreamEventView::ToolCallDelta {
                index: a,
                id: id_a,
                name: name_a,
                arguments: more_a,
            };
            let second = StreamEventView::ToolCallDelta {
                index: b,
                id: id_b,
                name: name_b,
                arguments: more_b,
            };
            turn.after(first).after(second) == turn.after(second).after(first)
        }),
{
    let first = StreamEventView::ToolCallDelta {
        index: a,
        id: id_a,
        name: name_a,
        arguments: more_a,
    };
    let second = StreamEventView::ToolCallDelta {
        index: b,
        id: id_b,
        name: name_b,
        arguments: more_b,
    };
    let held_a = match call_at(turn.calls, a) {
        Some(held) => held,
        None => PartialCallView::empty(),
    };
    let held_b = match call_at(turn.calls, b) {
        Some(held) => held,
        None => PartialCallView::empty(),
    };
    let new_a = held_a.with(id_a, name_a, more_a);
    let new_b = held_b.with(id_b, name_b, more_b);
    lemma_with_call(turn.calls, a, new_a);
    lemma_with_call(turn.calls, b, new_b);
    let x = with_call(turn.calls, a, new_a);
    let y = with_call(turn.calls, b, new_b);
    assert(call_at(x, b) == call_at(turn.calls, b));
    assert(call_at(y, a) == call_at(turn.calls, a));
    lemma_with_call(x, b, new_b);
    lemma_with_call(y, a, new_a);
    let xy = with_call(x, b, new_b);
    let yx = with_call(y, a, new_a);
    assert forall|index: usize| #[trigger] call_at(xy, index) == call_at(yx, index) by {
        assert(call_at(x, index) == call_at(x, index));
        assert(call_at(y, index) == call_at(y, index));
    }
    lemma_same_calls(xy, yx);
    assert(turn.after(first).after(second).calls == xy);
    assert(turn.after(second).after(first).calls == yx);
}

/// A later fragment that repeats the id and the name as empty erases neither.
pub proof fn law_an_empty_fragment_erases_nothing(
    held: PartialCallView,
    arguments: Option<Seq<char>>,
)
    ensures
        held.with(Some(Seq::empty()), Some(Seq::empty()), arguments).id == held.id,
        held.with(Some(Seq::empty()), Some(Seq::empty()), arguments).name == held.name,
{
}

/// What is left to do: fewer rounds, and within a round fewer calls.
pub open spec fn work_left(config: AgentConfigView, phase: PhaseView) -> (int, int) {
    match phase {
        PhaseView::Asking { round } => (2 * (config.max_rounds - round) + 2, 0),
        PhaseView::Calling { round, calls, next } => (
            2 * (config.max_rounds - round) + 1,
            calls.len() - next,
        ),
        PhaseView::Finished => (0, 0),
    }
}

/// Whether some work was done.
pub open spec fn less_work(now: (int, int), before: (int, int)) -> bool {
    0 <= now.0 && 0 <= now.1 && (now.0 < before.0 || (now.0 == before.0 && now.1 < before.1))
}

/// A run ends: every answer and every call brings it nearer to its end, so a model that keeps
/// asking for tools is stopped.
pub proof fn law_a_run_ends(
    config: AgentConfigView,
    round: int,
    calls: Seq<ToolCallView>,
    next: int,
    messages: Seq<ChatMessageView>,
    turn: TurnView,
    outcome: ToolOutcomeView,
)
    requires
        1 <= round <= config.max_rounds,
    ensures
        ({
            let step = answer_step(config, round, messages, turn);
            &&& phase_wf(config, step.phase)
            &&& less_work(
                work_left(config, step.phase),
                work_left(config, PhaseView::Asking { round }),
            )
        }),
        0 <= next < calls.len() ==> {
            let step = call_step(config, round, calls, next, messages, outcome);
            &&& phase_wf(config, step.phase)
            &&& less_work(
                work_left(config, step.phase),
                work_left(config, PhaseView::Calling { round, calls, next }),
            )
        },
{
}

/// Every call is answered once, in order: running the call at a place adds exactly one message, a
/// `tool` message that names that call, at the end of the history.
pub proof fn law_every_call_is_answered(
    config: AgentConfigView,
    round: int,
    calls: Seq<ToolCallView>,
    next: int,
    messages: Seq<ChatMessageView>,
    outcome: ToolOutcomeView,
)
    requires
        0 <= next < calls.len(),
    ensures
        ({
            let step = call_step(config, round, calls, next, messages, outcome);
            &&& step.messages.len() == messages.len() + 1
            &&& step.messages.last().role == Role::Tool
            &&& step.messages.last().tool_call_id == Some(calls[next].id)
            &&& step.messages.last().content == Some(outcome.content)
            &&& step.events[0] == (AgentEventView::ToolResult {
                id: calls[next].id,
                ok: outcome.ok,
                summary: outcome.summary,
            })
        }),
{
}

/// The system message is put in front once: a history that has been through the loop is not given a
/// second one.
pub proof fn law_one_system_message(messages: Seq<ChatMessageView>, system: Seq<char>)
    ensures
        with_system(with_system(messages, system), system) == with_system(messages, system),
        with_system(messages, system)[0].role == Role::System,
{
}

/// What a run waits for, when it comes.
pub enum Reply {
    Answer(TurnView),
    Outcome(ToolOutcomeView),
}

/// Where a run stands, and its history, after replies came one after the other. One the run does not
/// wait for changes nothing.
pub open spec fn after_replies(
    config: AgentConfigView,
    phase: PhaseView,
    messages: Seq<ChatMessageView>,
    replies: Seq<Reply>,
) -> (PhaseView, Seq<ChatMessageView>)
    decreases replies.len(),
{
    if replies.len() == 0 {
        (phase, messages)
    } else {
        let (phase, messages) = after_replies(config, phase, messages, replies.drop_last());
        match (phase, replies.last()) {
            (PhaseView::Asking { round }, Reply::Answer(turn)) => {
                let step = answer_step(config, round, messages, turn);
                (step.phase, step.messages)
            },
            (PhaseView::Calling { round, calls, next }, Reply::Outcome(outcome)) => {
                let step = call_step(config, round, calls, next, messages, outcome);
                (step.phase, step.messages)
            },
            _ => (phase, messages),
        }
    }
}

/// The history is only added to: whatever comes, every message that is in it stays as it is and where
/// it is, and so does the prefix that the model has already been sent.
pub proof fn law_a_run_only_adds_to_the_history(
    config: AgentConfigView,
    phase: PhaseView,
    messages: Seq<ChatMessageView>,
    replies: Seq<Reply>,
)
    ensures
        messages.len() <= after_replies(config, phase, messages, replies).1.len(),
        after_replies(config, phase, messages, replies).1.take(messages.len() as int) == messages,
    decreases replies.len(),
{
    let after = after_replies(config, phase, messages, replies).1;
    if replies.len() == 0 {
        assert(messages.take(messages.len() as int) =~= messages);
    } else {
        law_a_run_only_adds_to_the_history(config, phase, messages, replies.drop_last());
        let before = after_replies(config, phase, messages, replies.drop_last()).1;
        assert(after.take(messages.len() as int) =~= before.take(messages.len() as int));
    }
}

/// A turn of a run is sent back with what it thought: where the model's reasoning has to be replayed,
/// a turn that asks for tools holds its own reasoning, even when that is nothing, in the history and
/// so in every later request of the run.
pub proof fn law_a_turn_is_sent_back_with_what_it_thought(
    config: AgentConfigView,
    round: int,
    messages: Seq<ChatMessageView>,
    turn: TurnView,
    replies: Seq<Reply>,
)
    requires
        replay_model(config.model),
        turn.whole_calls().len() > 0,
    ensures
        ({
            let step = answer_step(config, round, messages, turn);
            let later = after_replies(config, step.phase, step.messages, replies).1;
            &&& messages.len() < later.len()
            &&& later[messages.len() as int].tool_calls == turn.whole_calls()
            &&& later[messages.len() as int].reasoning_content == Some(turn.reasoning)
        }),
{
    let step = answer_step(config, round, messages, turn);
    let later = after_replies(config, step.phase, step.messages, replies).1;
    law_a_run_only_adds_to_the_history(config, step.phase, step.messages, replies);
    let n = messages.len() as int;
    assert(later.take(step.messages.len() as int)[n] == later[n]);
}

/// The message that answers a call.
pub open spec fn answer_to(call: ToolCallView, outcome: ToolOutcomeView) -> ChatMessageView {
    ChatMessageView {
        role: Role::Tool,
        content: Some(outcome.content),
        reasoning_content: None,
        tool_calls: Seq::empty(),
        tool_call_id: Some(call.id),
    }
}

/// Every call of a turn is run, one after the other and in the order it was asked for. After as many
/// outcomes as there are calls the history holds one message more for each, the i-th under the id of
/// the i-th call and with the i-th outcome; until then the run waits for the next call of the same
/// round, and then it asks again, unless that was the last round.
pub proof fn law_every_call_is_run_in_its_turn(
    config: AgentConfigView,
    round: int,
    calls: Seq<ToolCallView>,
    messages: Seq<ChatMessageView>,
    outcomes: Seq<ToolOutcomeView>,
)
    requires
        0 < calls.len(),
        outcomes.len() <= calls.len(),
    ensures
        ({
            let replies = Seq::new(outcomes.len(), |i: int| Reply::Outcome(outcomes[i]));
            let start = PhaseView::Calling { round, calls, next: 0 };
            let (phase, history) = after_replies(config, start, messages, replies);
            &&& history == messages + Seq::new(
                outcomes.len(),
                |i: int| answer_to(calls[i], outcomes[i]),
            )
            &&& outcomes.len() < calls.len() ==> phase == (PhaseView::Calling {
                round,
                calls,
                next: outcomes.len() as int,
            })
            &&& outcomes.len() == calls.len() && round < config.max_rounds ==> phase == (
            PhaseView::Asking { round: round + 1 })
            &&& outcomes.len() == calls.len() && round >= config.max_rounds ==> phase is Finished
        }),
    decreases outcomes.len(),
{
    let replies = Seq::new(outcomes.len(), |i: int| Reply::Outcome(outcomes[i]));
    let start = PhaseView::Calling { round, calls, next: 0 };
    let history = after_replies(config, start, messages, replies).1;
    if outcomes.len() > 0 {
        let fewer = outcomes.drop_last();
        law_every_call_is_run_in_its_turn(config, round, calls, messages, fewer);
        assert(replies.drop_last() =~= Seq::new(fewer.len(), |i: int| Reply::Outcome(fewer[i])));
        let before = after_replies(config, start, messages, replies.drop_last()).1;
        let last = outcomes.len() - 1;
        assert(answer_to(calls[last], outcomes[last]) =~= ChatMessageView {
            tool_call_id: Some(calls[last].id),
            ..ChatMessageView::plain(Role::Tool, outcomes[last].content)
        });
        assert(history == before.push(answer_to(calls[last], outcomes[last])));
        assert(history =~= messages + Seq::new(
            outcomes.len(),
            |i: int| answer_to(calls[i], outcomes[i]),
        ));
    } else {
        assert(history =~= messages + Seq::new(
            outcomes.len(),
            |i: int| answer_to(calls[i], outcomes[i]),
        ));
    }
}

/// One outcome is one step: it is told under the id of its call, answers that call in the history,
/// and leads to the next call while there is one. Only behind the last call of the last round is
/// the run ended, and it says that it was.
pub proof fn law_an_outcome_leads_to_the_next_call(
    config: AgentConfigView,
    round: int,
    calls: Seq<ToolCallView>,
    next: int,
    messages: Seq<ChatMessageView>,
    outcome: ToolOutcomeView,
)
    requires
        0 <= next < calls.len(),
    ensures
        ({
            let step = call_step(config, round, calls, next, messages, outcome);
            &&& step.messages == messages.push(answer_to(calls[next], outcome))
            &&& step.events[0] == (AgentEventView::ToolResult {
                id: calls[next].id,
                ok: outcome.ok,
                summary: outcome.summary,
            })
            &&& next + 1 < calls.len() ==> step.events.len() == 1 && step.phase == (
            PhaseView::Calling { round, calls, next: next + 1 })
            &&& next + 1 == calls.len() && round < config.max_rounds ==> step.events.len() == 1
                && step.phase == (PhaseView::Asking { round: round + 1 })
            &&& next + 1 == calls.len() && round >= config.max_rounds ==> {
                &&& step.phase is Finished
                &&& step.events.len() == 3
                &&& step.events[1] == AgentEventView::Error(
                    "stopped after "@ + decimal(config.max_rounds as nat)
                        + " rounds of tool calls without an answer"@,
                )
                &&& step.events[2] == (AgentEventView::TurnFinished {
                    reason: FinishReasonView::Other("max_rounds"@),
                })
            }
        }),
{
    let step = call_step(config, round, calls, next, messages, outcome);
    assert(answer_to(calls[next], outcome) =~= ChatMessageView {
        tool_call_id: Some(calls[next].id),
        ..ChatMessageView::plain(Role::Tool, outcome.content)
    });
}

/// An answer is kept, whatever came of it, as one message with all it said, thought and asked for.
/// One that failed ends the run with its error; one that asks for nothing ends it with the reason it
/// gave; one that asks for tools announces each of them, whole and in order, and has the first run.
pub proof fn law_an_answer_is_kept_and_acted_on(
    config: AgentConfigView,
    round: int,
    messages: Seq<ChatMessageView>,
    turn: TurnView,
)
    ensures
        ({
            let step = answer_step(config, round, messages, turn);
            let kept = step.messages.last();
            &&& step.messages.len() == messages.len() + 1
            &&& step.messages.drop_last() == messages
            &&& kept.role == Role::Assistant
            &&& kept.content == Some(turn.content)
            &&& kept.tool_calls == turn.whole_calls()
            &&& kept.tool_call_id is None
            &&& turn.reasoning.len() > 0 ==> kept.reasoning_content == Some(turn.reasoning)
            &&& turn.reasoning.len() == 0 && (turn.calls.len() == 0 || !replay_model(config.model))
                ==> kept.reasoning_content is None
            &&& turn.error matches Some(error) ==> step.phase is Finished && step.events == seq![
                AgentEventView::Error(error),
            ]
            &&& turn.error is None && turn.calls.len() == 0 ==> {
                &&& step.phase is Finished
                &&& step.events.len() == 1
                &&& step.events[0] matches AgentEventView::TurnFinished { reason } && match turn.finish {
                    None | Some(ApiFinishView::Stop) => reason is Stop,
                    Some(ApiFinishView::ToolCalls) => reason is ToolCalls,
                    Some(ApiFinishView::Length) => reason is Length,
                    Some(ApiFinishView::ContentFilter) => reason == FinishReasonView::Other(
                        "content_filter"@,
                    ),
                    Some(ApiFinishView::Other(name)) => reason == FinishReasonView::Other(name),
                }
            }
            &&& turn.error is None && turn.calls.len() > 0 ==> {
                &&& step.phase == (PhaseView::Calling {
                    round,
                    calls: turn.whole_calls(),
                    next: 0,
                })
                &&& step.events.len() == turn.calls.len()
                &&& forall|i: int|
                    0 <= i < turn.calls.len() ==> #[trigger] step.events[i] == (
                    AgentEventView::ToolCall {
                        id: turn.whole_calls()[i].id,
                        name: turn.whole_calls()[i].name,
                        arguments: turn.whole_calls()[i].arguments,
                    })
            }
        }),
{
    let step = answer_step(config, round, messages, turn);
    assert(step.messages.drop_last() =~= messages);
}

/// How many messages a run puts in front of a history: the system message, where there is none.
pub open spec fn put_in_front(messages: Seq<ChatMessageView>) -> int {
    if messages.len() > 0 && messages[0].role == Role::System {
        0
    } else {
        1
    }
}

/// Whether a message is another but for its reasoning, which may have been put in where it was owed.
pub open spec fn replays(
    config: AgentConfigView,
    now: ChatMessageView,
    before: ChatMessageView,
) -> bool {
    &&& now.role == before.role
    &&& now.content == before.content
    &&& now.tool_calls == before.tool_calls
    &&& now.tool_call_id == before.tool_call_id
    &&& config.max_rounds == 0 || !replay_model(config.model) || before.role != Role::Assistant
        || before.tool_calls.len() == 0 || (before.reasoning_content matches Some(thought)
        && !blank(thought)) ==> now.reasoning_content == before.reasoning_content
}

/// A run begins by saying which model it asks. The history gets the system message in front where it
/// has none and is otherwise the one that was handed in, but for the reasoning that the model has to
/// be sent back; with no round to spend nothing is asked.
pub proof fn law_a_run_begins_with_the_history_it_was_given(
    config: AgentConfigView,
    messages: Seq<ChatMessageView>,
    i: int,
)
    requires
        0 <= i < messages.len(),
    ensures
        ({
            let step = start_step(config, messages);
            let from = put_in_front(messages);
            &&& step.events == seq![AgentEventView::TurnStarted { model: config.model }]
            &&& config.max_rounds == 0 ==> step.phase is Finished
            &&& config.max_rounds > 0 ==> step.phase == (PhaseView::Asking { round: 1 })
            &&& step.messages.len() == messages.len() + from
            &&& from == 1 ==> {
                &&& step.messages[0].role == Role::System
                &&& step.messages[0].content == Some(config.system)
                &&& step.messages[0].tool_calls.len() == 0
                &&& step.messages[0].tool_call_id is None
                &&& step.messages[0].reasoning_content is None
            }
            &&& replays(config, step.messages[from + i], messages[i])
        }),
{
    let history = with_system(messages, config.system);
    let step = start_step(config, messages);
    let from = put_in_front(messages);
    assert(history[from + i] == messages[i]);
    if config.max_rounds > 0 && replay_model(config.model) {
        crate::message::law_patching_touches_only_missing_reasoning(history, 0);
        crate::message::law_patching_touches_only_missing_reasoning(history, from + i);
    }
}

/// A run on an empty history begins with the system message alone.
pub proof fn law_a_run_can_begin_with_nothing(config: AgentConfigView)
    ensures
        ({
            let step = start_step(config, Seq::empty());
            &&& step.messages.len() == 1
            &&& step.messages[0].role == Role::System
            &&& step.messages[0].content == Some(config.system)
            &&& step.events == seq![AgentEventView::TurnStarted { model: config.model }]
            &&& config.max_rounds == 0 ==> step.phase is Finished
            &&& config.max_rounds > 0 ==> step.phase == (PhaseView::Asking { round: 1 })
        }),
{
    let history = with_system(Seq::empty(), config.system);
    assert(history[0] == ChatMessageView::plain(Role::System, config.system));
    crate::message::law_patching_touches_only_missing_reasoning(history, 0);
}

/// Each event adds to its own part of the turn and to no other: words to the words, thoughts to the
/// thoughts, behind what is already there. The last reason and the last error stand; the accounting
/// is not kept.
pub proof fn law_an_event_adds_to_its_own_part(turn: TurnView, event: StreamEventView)
    ensures
        ({
            let now = turn.after(event);
            &&& event matches StreamEventView::Content(delta) ==> now.content == turn.content
                + delta
            &&& !(event is Content) ==> now.content == turn.content
            &&& event matches StreamEventView::Reasoning(delta) ==> now.reasoning == turn.reasoning
                + delta
            &&& !(event is Reasoning) ==> now.reasoning == turn.reasoning
            &&& event matches StreamEventView::Finished(reason) ==> now.finish == Some(reason)
            &&& !(event is Finished) ==> now.finish == turn.finish
            &&& event matches StreamEventView::Error(message) ==> now.error == Some(message)
            &&& !(event is Error) ==> now.error == turn.error
            &&& !(event is ToolCallDelta) ==> now.calls == turn.calls
        }),
{
}

/// A fragment changes the call of its index and no other. Its piece of the arguments goes behind
/// those that came before; its id and its name take the place of the earlier ones where they say
/// something. A first fragment starts its call, and the calls stay in order of their index.
pub proof fn law_a_fragment_adds_to_its_own_call(
    turn: TurnView,
    index: usize,
    id: Option<Seq<char>>,
    name: Option<Seq<char>>,
    arguments: Option<Seq<char>>,
    held: PartialCallView,
)
    requires
        turn.wf(),
        turn.calls.contains((index, held)) || (held.id is None && held.name is None
            && held.arguments.len() == 0 && forall|k: int|
            0 <= k < turn.calls.len() ==> (#[trigger] turn.calls[k]).0 != index),
    ensures
        ({
            let now = turn.after(
                StreamEventView::ToolCallDelta { index, id, name, arguments },
            ).calls;
            &&& forall|i: int, j: int|
                0 <= i < j < now.len() ==> (#[trigger] now[i]).0 < (#[trigger] now[j]).0
            &&& forall|other: usize, call: PartialCallView|
                other != index ==> (#[trigger] now.contains((other, call)) <==> turn.calls.contains(
                    (other, call),
                ))
            &&& exists|call: PartialCallView| #[trigger]
                now.contains((index, call)) && call.arguments == held.arguments + (match arguments {
                    Some(more) => more,
                    None => Seq::empty(),
                }) && call.id == (match id {
                    Some(text) => if text.len() > 0 {
                        Some(text)
                    } else {
                        held.id
                    },
                    None => held.id,
                }) && call.name == (match name {
                    Some(text) => if text.len() > 0 {
                        Some(text)
                    } else {
                        held.name
                    },
                    None => held.name,
                })
        }),
{
    let event = StreamEventView::ToolCallDelta { index, id, name, arguments };
    let now = turn.after(event).calls;
    lemma_call_at(turn.calls, index);
    let before = match call_at(turn.calls, index) {
        Some(held) => held,
        None => PartialCallView::empty(),
    };
    if turn.calls.contains((index, held)) {
        let k = choose|k: int| 0 <= k < turn.calls.len() && turn.calls[k] == (index, held);
        assert(turn.calls[k].0 == index);
    } else {
        assert(held.arguments =~= Seq::<char>::empty());
    }
    assert(before == held);
    let call = held.with(id, name, arguments);
    lemma_with_call(turn.calls, index, call);
    assert(now == with_call(turn.calls, index, call));
    lemma_call_at(now, index);
    assert(call_at(now, index) == Some(call));
    assert(now.contains((index, call)));
    assert(held.arguments + Seq::<char>::empty() =~= held.arguments);
    assert forall|other: usize, call: PartialCallView| other != index implies (
    #[trigger] now.contains((other, call)) <==> turn.calls.contains((other, call))) by {
        lemma_call_at(now, other);
        lemma_call_at(turn.calls, other);
        assert(call_at(now, other) == call_at(turn.calls, other));
        if now.contains((other, call)) {
            let k = choose|k: int| 0 <= k < now.len() && now[k] == (other, call);
            assert(now[k].0 == other);
        }
        if turn.calls.contains((other, call)) {
            let k = choose|k: int| 0 <= k < turn.calls.len() && turn.calls[k] == (other, call);
            assert(turn.calls[k].0 == other);
        }
    }
}

/// Every call a turn gathered is asked for, in order and with all its arguments. One that came
/// without an id is given one from its index, so that its answer can name it.
pub proof fn law_a_gathered_call_is_asked_for(turn: TurnView, i: int)
    requires
        0 <= i < turn.calls.len(),
    ensures
        turn.whole_calls().len() == turn.calls.len(),
        turn.whole_calls()[i].kind == "function"@,
        turn.whole_calls()[i].arguments == turn.calls[i].1.arguments,
        turn.calls[i].1.id matches Some(id) ==> turn.whole_calls()[i].id == id,
        turn.calls[i].1.id is None ==> turn.whole_calls()[i].id == "call_"@ + decimal(
            turn.calls[i].0 as nat,
        ),
        turn.calls[i].1.name matches Some(name) ==> turn.whole_calls()[i].name == name,
        turn.calls[i].1.name is None ==> turn.whole_calls()[i].name.len() == 0,
{
}

/// What is final as it comes is told at once and as it came; a fragment, a reason and an error are
/// not told before the turn is whole.
pub proof fn law_what_is_final_is_told_at_once(event: StreamEventView)
    ensures
        match event {
            StreamEventView::Content(delta) => told(event) == Some(AgentEventView::Content(delta)),
            StreamEventView::Reasoning(delta) => told(event) == Some(
                AgentEventView::Thinking(delta),
            ),
            StreamEventView::Usage(usage) => told(event) matches Some(AgentEventView::Usage(cost))
                && cost.prompt_tokens == usage.input_tokens && cost.cache_hit_tokens
                == usage.prompt_cache_hit_tokens && cost.cache_miss_tokens
                == usage.prompt_cache_miss_tokens && cost.completion_tokens == usage.output_tokens
                && cost.reasoning_tokens == usage.reasoning_tokens,
            _ => told(event) is None,
        },
{
}

/// A turn becomes one message of the assistant: all it said, every call it gathered, and what it
/// thought, where it thought anything.
pub proof fn law_a_turn_becomes_one_message(turn: TurnView)
    ensures
        turn.message().role == Role::Assistant,
        turn.message().content == Some(turn.content),
        turn.message().tool_calls == turn.whole_calls(),
        turn.message().tool_call_id is None,
        turn.reasoning.len() > 0 ==> turn.message().reasoning_content == Some(turn.reasoning),
        turn.reasoning.len() == 0 ==> turn.message().reasoning_content is None,
        TurnView::empty().content.len() == 0,
        TurnView::empty().reasoning.len() == 0,
        TurnView::empty().calls.len() == 0,
        TurnView::empty().finish is None,
        TurnView::empty().error is None,
{
}

} // verus!
