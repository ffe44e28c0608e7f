//! The response side: SSE framing, and the deltas inside a chunk.
//!
//! Two jobs, kept apart on purpose. [`SseBuffer`] knows nothing about DeepSeek: it turns a stream
//! of text into the payloads of complete `data:` events, which is a framing problem.
//! [`parse_delta`] knows nothing about framing: it reads one JSON payload into the events it
//! carries, which is a schema problem. A chunk boundary can fall anywhere, so only the buffer is
//! allowed to care about where the last read ended.

use vstd::prelude::*;

use crate::client::{ApiError, ApiErrorView};
use crate::json::{count_at, json_parse, parse_json, text_at, Json, JsonView};
use crate::text::{
    begins, begins_with, chars_of, copy, join, join_of, lemma_split_pieces, lemma_upto,
    lemma_views_push, opt_view, same, split, split_of, string_of, trim, trimmed, upto, views,
};
use crate::usage::{report_of, Usage};

verus! {

/// Why the model stopped.
///
/// The wire's own vocabulary, kept separate from the engine's. `ToolCalls` is the one that means
/// "do not stop: run them and ask again".
#[derive(Debug, Clone, PartialEq, Eq)]
pub enum FinishReason {
    Stop,
    ToolCalls,
    Length,
    ContentFilter,
    /// A reason a newer API version introduced. Kept as text so a new one cannot crash a session.
    Other(String),
}

#[verifier::ext_equal]
pub enum FinishReasonView {
    Stop,
    ToolCalls,
    Length,
    ContentFilter,
    Other(Seq<char>),
}

impl View for FinishReason {
    type V = FinishReasonView;

    open spec fn view(&self) -> FinishReasonView {
        match *self {
            FinishReason::Stop => FinishReasonView::Stop,
            FinishReason::ToolCalls => FinishReasonView::ToolCalls,
            FinishReason::Length => FinishReasonView::Length,
            FinishReason::ContentFilter => FinishReasonView::ContentFilter,
            FinishReason::Other(text) => FinishReasonView::Other(text@),
        }
    }
}

/// Something the model said, thought, or asked for while a response streamed in.
#[derive(Debug, Clone, PartialEq)]
pub enum StreamEvent {
    /// Visible answer text. Deltas: a subscriber appends.
    Content(String),
    /// The model's reasoning, in the same delta shape.
    Reasoning(String),
    /// A tool call, or a fragment of one.
    ///
    /// The API streams a call in pieces: the id and the name arrive in the first fragment and the
    /// arguments accumulate across the rest, all sharing an `index`. Reassembly belongs to the
    /// caller, which is why the index is part of the event.
    ToolCallDelta {
        index: usize,
        id: Option<String>,
        name: Option<String>,
        arguments: Option<String>,
    },
    /// Token accounting. DeepSeek sends it in a final chunk of its own when the request asked for
    /// it, which is why a chunk with no choices can still carry something.
    Usage(Usage),
    Finished(FinishReason),
    /// An error the API reported *inside* the stream, after a 200.
    Error(String),
}

#[verifier::ext_equal]
pub enum StreamEventView {
    Content(Seq<char>),
    Reasoning(Seq<char>),
    ToolCallDelta {
        index: usize,
        id: Option<Seq<char>>,
        name: Option<Seq<char>>,
        arguments: Option<Seq<char>>,
    },
    Usage(Usage),
    Finished(FinishReasonView),
    Error(Seq<char>),
}

impl View for StreamEvent {
    type V = StreamEventView;

    open spec fn view(&self) -> StreamEventView {
        match *self {
            StreamEvent::Content(text) => StreamEventView::Content(text@),
            StreamEvent::Reasoning(text) => StreamEventView::Reasoning(text@),
            StreamEvent::ToolCallDelta { index, id, name, arguments } => {
                StreamEventView::ToolCallDelta {
                    index,
                    id: opt_view(id),
                    name: opt_view(name),
                    arguments: opt_view(arguments),
                }
            },
            StreamEvent::Usage(usage) => StreamEventView::Usage(usage),
            StreamEvent::Finished(reason) => StreamEventView::Finished(reason@),
            StreamEvent::Error(text) => StreamEventView::Error(text@),
        }
    }
}

/// What each event of a list says.
pub open spec fn event_views(list: Seq<StreamEvent>) -> Seq<StreamEventView> {
    Seq::new(list.len(), |i: int| list[i]@)
}

// ---------------------------------------------------------------------------------------------
// Framing

/// A line without the carriage returns at its end.
pub open spec fn strip_returns(line: Seq<char>) -> Seq<char>
    decreases line.len(),
{
    if line.len() > 0 && line.last() == '\r' {
        strip_returns(line.drop_last())
    } else {
        line
    }
}

/// What a `data:` line adds to its event, without the one space that may stand first.
pub open spec fn data_of(line: Seq<char>) -> Option<Seq<char>> {
    if begins(line, "data:"@) {
        let rest = line.skip(5);
        Some(
            if rest.len() > 0 && rest[0] == ' ' {
                rest.skip(1)
            } else {
                rest
            },
        )
    } else {
        None
    }
}

/// Where the reading of a stream stands: the `data:` lines of the event being assembled, and the
/// payloads of the events that were completed.
#[verifier::ext_equal]
pub struct Framing {
    pub data: Seq<Seq<char>>,
    pub payloads: Seq<Seq<char>>,
}

impl Framing {
    /// One whole line, as it stood between two line feeds.
    ///
    /// A blank line ends the event; a `data:` line adds to it; any other field and any comment is
    /// dropped.
    pub open spec fn line(self, raw: Seq<char>) -> Framing {
        let line = strip_returns(raw);
        if line.len() == 0 {
            if self.data.len() == 0 {
                self
            } else {
                Framing {
                    data: Seq::empty(),
                    payloads: self.payloads.push(join(self.data, seq!['\n'])),
                }
            }
        } else {
            match data_of(line) {
                Some(payload) => Framing {
                    data: self.data.push(payload),
                    payloads: self.payloads,
                },
                None => self,
            }
        }
    }

    pub open spec fn lines(self, raws: Seq<Seq<char>>) -> Framing
        decreases raws.len(),
    {
        if raws.len() == 0 {
            self
        } else {
            self.lines(raws.drop_last()).line(raws.last())
        }
    }
}

/// Turns a stream of text into the payloads of complete `data:` events.
#[derive(Debug)]
pub struct SseBuffer {
    /// Everything since the last newline. A chunk can end anywhere, so the tail waits here.
    pending: String,
    /// The `data:` lines of the event being assembled. Server-sent events put several of them in
    /// one event and join them with newlines; DeepSeek sends one, and the join costs nothing.
    data: Vec<String>,
}

/// What a buffer holds between two chunks.
#[verifier::ext_equal]
pub struct SseView {
    pub pending: Seq<char>,
    pub data: Seq<Seq<char>>,
}

impl SseView {
    /// The whole lines there are once a chunk has come in.
    pub open spec fn whole(self, chunk: Seq<char>) -> Seq<Seq<char>> {
        split(self.pending + chunk, '\n').drop_last()
    }

    /// What reading those lines comes to.
    pub open spec fn read(self, chunk: Seq<char>) -> Framing {
        (Framing { data: self.data, payloads: Seq::empty() }).lines(self.whole(chunk))
    }

    /// The buffer once a chunk has come in: what follows the last line feed waits.
    pub open spec fn after(self, chunk: Seq<char>) -> SseView {
        SseView {
            pending: split(self.pending + chunk, '\n').last(),
            data: self.read(chunk).data,
        }
    }
}

impl View for SseBuffer {
    type V = SseView;

    closed spec fn view(&self) -> SseView {
        SseView { pending: self.pending@, data: views(self.data@) }
    }
}

impl Default for SseBuffer {
    fn default() -> (out: Self)
        ensures
            out@ == (SseView { pending: Seq::empty(), data: Seq::empty() }),
    {
        let out = SseBuffer { pending: String::new(), data: Vec::new() };
        assert(views(out.data@) =~= Seq::<Seq<char>>::empty());
        out
    }
}

fn without_returns(line: Vec<char>) -> (out: Vec<char>)
    ensures
        out@ == strip_returns(line@),
{
    let mut out = line;
    while out.len() > 0 && out[out.len() - 1] == '\r'
        invariant
            strip_returns(out@) == strip_returns(line@),
        decreases out@.len(),
    {
        out.pop();
    }
    out
}

/// What a `data:` line adds to its event.
fn data_line(line: &[char]) -> (out: Option<String>)
    ensures
        opt_view(out) == data_of(line@),
{
    proof {
        reveal_strlit("data:");
    }
    if !begins_with(line, chars_of("data:").as_slice()) {
        return None;
    }
    let rest = vstd::slice::slice_subrange(line, 5, line.len());
    assert(rest@ =~= line@.skip(5));
    if rest.len() > 0 && rest[0] == ' ' {
        let text = vstd::slice::slice_subrange(rest, 1, rest.len());
        assert(text@ =~= rest@.skip(1));
        Some(string_of(text))
    } else {
        Some(string_of(rest))
    }
}

impl SseBuffer {
    pub fn new() -> (out: Self)
        ensures
            out@ == (SseView { pending: Seq::empty(), data: Seq::empty() }),
    {
        SseBuffer::default()
    }

    /// Feed one chunk and take out whatever events it completed.
    ///
    /// Fields other than `data` (`event:`, `id:`, `retry:`) and comment lines (a leading `:`,
    /// which is how a server keeps a connection alive) are read and dropped: this API does not use
    /// them, and a keep-alive must not be mistaken for content.
    pub fn push(&mut self, chunk: &str) -> (out: Vec<String>)
        ensures
            views(out@) == old(self)@.read(chunk@).payloads,
            final(self)@ == old(self)@.after(chunk@),
    {
        let ghost before = self@;
        let mut text = copy(&self.pending);
        text.append(chunk);
        let mut pieces = split_of(&text, '\n');
        let ghost parts = split(before.pending + chunk@, '\n');
        proof {
            lemma_split_pieces(before.pending + chunk@, '\n');
            assert(text@ =~= before.pending + chunk@);
        }
        let tail = match pieces.pop() {
            Some(tail) => tail,
            None => String::new(),
        };
        assert(parts.last() == tail@);
        let ghost whole = views(pieces@);
        assert(whole =~= parts.drop_last());

        let mut out: Vec<String> = Vec::new();
        let mut data: Vec<String> = Vec::new();
        let mut k: usize = 0;
        while k < self.data.len()
            invariant
                k <= self.data@.len(),
                data@.len() == k,
                before == self@,
                forall|i: int| 0 <= i < k ==> (#[trigger] data@[i])@ == self.data@[i]@,
            decreases self.data@.len() - k,
        {
            data.push(copy(&self.data[k]));
            k += 1;
        }
        let ghost start = Framing { data: before.data, payloads: Seq::empty() };
        let mut n: usize = 0;
        proof {
            assert(views(data@) =~= before.data);
            assert(views(out@) =~= Seq::<Seq<char>>::empty());
            assert(whole.take(0) =~= Seq::<Seq<char>>::empty());
        }
        while n < pieces.len()
            invariant
                n <= pieces@.len(),
                whole == views(pieces@),
                start.lines(whole.take(n as int)) == (Framing {
                    data: views(data@),
                    payloads: views(out@),
                }),
            decreases pieces@.len() - n,
        {
            let ghost so_far = start.lines(whole.take(n as int));
            assert(whole.take(n + 1).drop_last() =~= whole.take(n as int));
            assert(whole.take(n + 1).last() == pieces@[n as int]@);
            let line = without_returns(chars_of(&pieces[n]));
            if line.len() == 0 {
                // A blank line ends the event.
                if data.len() > 0 {
                    proof {
                        reveal_strlit("\n");
                        assert("\n"@ =~= seq!['\n']);
                    }
                    let payload = join_of(data.as_slice(), "\n");
                    proof {
                        lemma_views_push(out@, payload);
                    }
                    out.push(payload);
                    data.clear();
                    assert(views(data@) =~= Seq::<Seq<char>>::empty());
                }
            } else {
                match data_line(line.as_slice()) {
                    Some(payload) => {
                        proof {
                            lemma_views_push(data@, payload);
                        }
                        data.push(payload);
                    },
                    None => {},
                }
            }
            n += 1;
        }
        assert(whole.take(whole.len() as int) =~= whole);
        self.pending = tail;
        self.data = data;
        out
    }
}

// ---------------------------------------------------------------------------------------------
// Deltas

/// A sequence of what is there, if it is.
pub open spec fn present(event: Option<StreamEventView>) -> Seq<StreamEventView> {
    match event {
        Some(event) => seq![event],
        None => Seq::empty(),
    }
}

/// The message of an error object, whatever shape it came in.
pub open spec fn error_text(error: JsonView) -> Seq<char> {
    match error.text() {
        Some(text) => text,
        None => {
            let message = match text_at(error, "message"@) {
                Some(message) => message,
                None => "the API reported an error"@,
            };
            let code = match error.get("code"@) {
                Some(code) => code.text(),
                None => text_at(error, "type"@),
            };
            match code {
                Some(code) => message + " ("@ + code + ")"@,
                None => message,
            }
        },
    }
}

pub open spec fn error_event(value: JsonView) -> Option<StreamEventView> {
    match value.get("error"@) {
        Some(error) => Some(StreamEventView::Error(error_text(error))),
        None => None,
    }
}

pub open spec fn usage_event(value: JsonView) -> Option<StreamEventView> {
    match value.get("usage"@) {
        Some(usage) => if usage is Null {
            None
        } else {
            Some(StreamEventView::Usage(report_of(usage).usage()))
        },
        None => None,
    }
}

/// The text under a key, unless it is empty.
pub open spec fn words_at(node: JsonView, key: Seq<char>) -> Option<Seq<char>> {
    match text_at(node, key) {
        Some(text) => if text.len() > 0 {
            Some(text)
        } else {
            None
        },
        None => None,
    }
}

pub open spec fn content_event(delta: JsonView) -> Option<StreamEventView> {
    match words_at(delta, "content"@) {
        Some(text) => Some(StreamEventView::Content(text)),
        None => None,
    }
}

pub open spec fn reasoning_event(delta: JsonView) -> Option<StreamEventView> {
    match words_at(delta, "reasoning_content"@) {
        Some(text) => Some(StreamEventView::Reasoning(text)),
        None => None,
    }
}

/// A fragment of a call. The API sends the index; a server that omits it means "in order".
pub open spec fn call_event(call: JsonView, position: int) -> StreamEventView {
    StreamEventView::ToolCallDelta {
        index: match count_at(call, "index"@) {
            Some(index) => index as usize,
            None => position as usize,
        },
        id: text_at(call, "id"@),
        name: match call.get("function"@) {
            Some(function) => text_at(function, "name"@),
            None => None,
        },
        arguments: match call.get("function"@) {
            Some(function) => text_at(function, "arguments"@),
            None => None,
        },
    }
}

pub open spec fn call_events(delta: JsonView) -> Seq<StreamEventView> {
    match delta.get("tool_calls"@) {
        Some(JsonView::List(calls)) => Seq::new(calls.len(), |i: int| call_event(calls[i], i)),
        _ => Seq::empty(),
    }
}

pub open spec fn reason_of(text: Seq<char>) -> FinishReasonView {
    if text == "stop"@ {
        FinishReasonView::Stop
    } else if text == "tool_calls"@ {
        FinishReasonView::ToolCalls
    } else if text == "length"@ {
        FinishReasonView::Length
    } else if text == "content_filter"@ {
        FinishReasonView::ContentFilter
    } else {
        FinishReasonView::Other(text)
    }
}

pub open spec fn finish_event(choice: JsonView) -> Option<StreamEventView> {
    match text_at(choice, "finish_reason"@) {
        Some(text) => Some(StreamEventView::Finished(reason_of(text))),
        None => None,
    }
}

/// What one choice carries: the words, the reasoning, the calls, and why it ended.
pub open spec fn choice_events(choice: JsonView) -> Seq<StreamEventView> {
    (match choice.get("delta"@) {
        Some(delta) => present(content_event(delta)) + present(reasoning_event(delta))
            + call_events(delta),
        None => Seq::empty(),
    }) + present(finish_event(choice))
}

/// What a whole payload carries. Only the first choice is read.
pub open spec fn delta_events(value: JsonView) -> Seq<StreamEventView> {
    present(error_event(value)) + present(usage_event(value)) + (match value.get("choices"@) {
        Some(choices) => match choices.first() {
            Some(choice) => choice_events(choice),
            None => Seq::empty(),
        },
        None => Seq::empty(),
    })
}

proof fn lemma_push(list: Seq<StreamEvent>, event: StreamEvent)
    ensures
        event_views(list.push(event)) == event_views(list) + present(Some(event@)),
{
    assert(event_views(list.push(event)) =~= event_views(list) + seq![event@]);
}

/// Adds an event to a list, when there is one.
fn add_event(list: &mut Vec<StreamEvent>, event: Option<StreamEvent>)
    ensures
        event_views(final(list)@) == event_views(old(list)@) + present(
            match event {
                Some(event) => Some(event@),
                None => None,
            },
        ),
{
    match event {
        Some(event) => {
            proof {
                lemma_push(list@, event);
            }
            list.push(event);
        },
        None => {
            assert(event_views(list@) + Seq::<StreamEventView>::empty() =~= event_views(list@));
        },
    }
}

/// Pull a readable message out of an error object, whatever shape it came in.
pub fn describe_error(error: &Json) -> (out: String)
    ensures
        out@ == error_text(error@),
{
    match error.as_text() {
        Some(text) => copy(text),
        None => {
            let mut message = match error.text_under("message") {
                Some(message) => message,
                None => copy("the API reported an error"),
            };
            let code: Option<String> = match error.get("code") {
                Some(code) => match code.as_text() {
                    Some(code) => Some(copy(code)),
                    None => None,
                },
                None => error.text_under("type"),
            };
            match code {
                Some(code) => {
                    message.append(" (");
                    message.append(&code);
                    message.append(")");
                    message
                },
                None => message,
            }
        },
    }
}

fn words_under(node: &Json, key: &str) -> (out: Option<String>)
    ensures
        opt_view(out) == words_at(node@, key@),
{
    match node.text_under(key) {
        Some(text) => if text.as_str().is_empty() {
            None
        } else {
            Some(text)
        },
        None => None,
    }
}

fn finish_reason(text: String) -> (out: FinishReason)
    ensures
        out@ == reason_of(text@),
{
    if same(&text, "stop") {
        FinishReason::Stop
    } else if same(&text, "tool_calls") {
        FinishReason::ToolCalls
    } else if same(&text, "length") {
        FinishReason::Length
    } else if same(&text, "content_filter") {
        FinishReason::ContentFilter
    } else {
        FinishReason::Other(text)
    }
}

fn read_call(call: &Json, position: usize) -> (out: StreamEvent)
    ensures
        out@ == call_event(call@, position as int),
{
    let index: usize = match call.count_under("index") {
        Some(index) => index as usize,
        None => position,
    };
    let id = call.text_under("id");
    let (name, arguments): (Option<String>, Option<String>) = match call.get("function") {
        Some(function) => (function.text_under("name"), function.text_under("arguments")),
        None => (None, None),
    };
    StreamEvent::ToolCallDelta { index, id, name, arguments }
}

/// The events of one choice, added to a list.
fn read_choice(list: &mut Vec<StreamEvent>, choice: &Json)
    ensures
        event_views(final(list)@) == event_views(old(list)@) + choice_events(choice@),
{
    let ghost before = event_views(list@);
    let ghost mut so_far = Seq::<StreamEventView>::empty();
    assert(before + so_far =~= before);
    match choice.get("delta") {
        Some(delta) => {
            let content: Option<StreamEvent> = match words_under(delta, "content") {
                Some(text) => Some(StreamEvent::Content(text)),
                None => None,
            };
            add_event(list, content);
            let reasoning: Option<StreamEvent> = match words_under(delta, "reasoning_content") {
                Some(text) => Some(StreamEvent::Reasoning(text)),
                None => None,
            };
            add_event(list, reasoning);
            let ghost words = present(content_event(delta@)) + present(reasoning_event(delta@));
            assert(event_views(list@) =~= before + words);
            match delta.get("tool_calls") {
                Some(Json::List(calls)) => {
                    let ghost all = delta@.get("tool_calls"@)->0->List_0;
                    let mut i: usize = 0;
                    assert(call_events(delta@).take(0) =~= Seq::<StreamEventView>::empty());
                    assert(before + words + Seq::<StreamEventView>::empty() =~= before + words);
                    while i < calls.len()
                        invariant
                            i <= calls@.len(),
                            all.len() == calls@.len(),
                            delta@.get("tool_calls"@) == Some(JsonView::List(all)),
                            forall|k: int| 0 <= k < all.len() ==> #[trigger] all[k] == calls@[k]@,
                            event_views(list@) == before + words + call_events(delta@).take(
                                i as int,
                            ),
                        decreases calls@.len() - i,
                    {
                        let ghost at = list@;
                        let call = read_call(&calls[i], i);
                        proof {
                            assert(all[i as int] == calls@[i as int]@);
                            lemma_push(at, call);
                            assert(call_events(delta@).take(i + 1) =~= call_events(delta@).take(
                                i as int,
                            ) + seq![call@]);
                            assert(before + words + call_events(delta@).take(i as int)
                                + seq![call@] =~= before + words + call_events(delta@).take(i + 1));
                        }
                        list.push(call);
                        i += 1;
                    }
                    assert(call_events(delta@).take(all.len() as int) =~= call_events(delta@));
                },
                _ => {
                    assert(before + words + call_events(delta@) =~= before + words);
                },
            }
            proof {
                so_far = words + call_events(delta@);
                assert(before + so_far =~= before + words + call_events(delta@));
            }
        },
        None => {},
    }
    assert(event_views(list@) =~= before + so_far);
    let finished: Option<StreamEvent> = match choice.text_under("finish_reason") {
        Some(reason) => Some(StreamEvent::Finished(finish_reason(reason))),
        None => None,
    };
    add_event(list, finished);
    assert(before + so_far + present(finish_event(choice@)) =~= before + choice_events(choice@));
}

/// Read one parsed payload into the events it carries.
pub fn read_delta(value: &Json) -> (out: Vec<StreamEvent>)
    ensures
        event_views(out@) == delta_events(value@),
{
    let mut out: Vec<StreamEvent> = Vec::new();
    assert(event_views(out@) =~= Seq::<StreamEventView>::empty());
    let error: Option<StreamEvent> = match value.get("error") {
        Some(error) => Some(StreamEvent::Error(describe_error(error))),
        None => None,
    };
    add_event(&mut out, error);

    // A chunk that carries usage carries nothing else: it is the accounting that arrives after
    // the last choice.
    let usage: Option<StreamEvent> = match value.get("usage") {
        Some(usage) => if usage.is_null() {
            None
        } else {
            Some(StreamEvent::Usage(Usage::from_json(usage)))
        },
        None => None,
    };
    add_event(&mut out, usage);
    assert(event_views(out@) =~= present(error_event(value@)) + present(usage_event(value@)));

    match value.get("choices") {
        Some(choices) => match choices.first() {
            Some(choice) => {
                read_choice(&mut out, choice);
            },
            None => {},
        },
        None => {},
    }
    assert(event_views(out@) =~= delta_events(value@));
    out
}

/// Read one SSE payload into the events it carries.
///
/// A payload that holds nothing this app acts on (a role-only first chunk, a keep-alive shaped
/// like `{}`) yields an empty vector; one that is not JSON is an error.
pub fn parse_delta(payload: &str) -> (out: Result<Vec<StreamEvent>, ApiError>)
    ensures
        trim(payload@) == "[DONE]"@ ==> out is Ok && event_views(out->Ok_0@) == seq![
            StreamEventView::Finished(FinishReasonView::Stop),
        ],
        trim(payload@) != "[DONE]"@ ==> match json_parse(payload@) {
            Ok(value) => out is Ok && event_views(out->Ok_0@) == delta_events(value),
            Err(error) => out is Err && out->Err_0@ == ApiErrorView::Stream(error),
        },
{
    // The end-of-stream sentinel is not JSON.
    if same(&trimmed(payload), "[DONE]") {
        let mut out: Vec<StreamEvent> = Vec::new();
        out.push(StreamEvent::Finished(FinishReason::Stop));
        assert(event_views(out@) =~= seq![StreamEventView::Finished(FinishReasonView::Stop)]);
        return Ok(out);
    }
    match parse_json(payload) {
        Ok(value) => Ok(read_delta(&value)),
        Err(error) => Err(ApiError::Stream(error)),
    }
}

// ---------------------------------------------------------------------------------------------
// Laws

/// What follows a text changes only its last piece.
proof fn lemma_split_extend(a: Seq<char>, b: Seq<char>, c: char)
    ensures
        split(a + b, c) == split(a, c).drop_last() + split(split(a, c).last() + b, c),
    decreases a.len(),
{
    lemma_upto(a, c);
    let k = upto(a, c);
    lemma_split_pieces(a, c);
    if k < a.len() {
        let rest = a.skip(k + 1);
        lemma_split_pieces(rest, c);
        crate::text::lemma_split_first(a.take(k), c, rest + b);
        assert(a.take(k).push(c) + (rest + b) =~= a + b);
        lemma_split_extend(rest, b, c);
        assert(split(a, c) == seq![a.take(k)] + split(rest, c));
        assert(split(a, c).last() == split(rest, c).last());
        assert(seq![a.take(k)] + (split(rest, c).drop_last() + split(
            split(rest, c).last() + b,
            c,
        )) =~= split(a, c).drop_last() + split(split(a, c).last() + b, c));
    } else {
        assert(!a.contains(c));
        assert(split(a, c) =~= seq![a]);
        assert(split(a, c).drop_last() =~= Seq::<Seq<char>>::empty());
        assert(Seq::<Seq<char>>::empty() + split(a + b, c) =~= split(a + b, c));
    }
}

/// Payloads that came before a line are left as they were.
proof fn lemma_earlier_payloads(
    data: Seq<Seq<char>>,
    first: Seq<Seq<char>>,
    payloads: Seq<Seq<char>>,
    raws: Seq<Seq<char>>,
)
    ensures
        ({
            let later = (Framing { data, payloads }).lines(raws);
            let joined = (Framing { data, payloads: first + payloads }).lines(raws);
            &&& joined.data == later.data
            &&& joined.payloads == first + later.payloads
        }),
    decreases raws.len(),
{
    if raws.len() > 0 {
        lemma_earlier_payloads(data, first, payloads, raws.drop_last());
        let later = (Framing { data, payloads }).lines(raws.drop_last());
        let joined = (Framing { data, payloads: first + payloads }).lines(raws.drop_last());
        assert((first + later.payloads).push(join(later.data, seq!['\n'])) =~= first
            + later.payloads.push(join(later.data, seq!['\n'])));
        assert(joined.line(raws.last()).payloads =~= first + later.line(raws.last()).payloads);
    }
}

proof fn lemma_lines_add(start: Framing, a: Seq<Seq<char>>, b: Seq<Seq<char>>)
    ensures
        start.lines(a + b) == start.lines(a).lines(b),
    decreases b.len(),
{
    if b.len() == 0 {
        assert(a + b =~= a);
    } else {
        lemma_lines_add(start, a, b.drop_last());
        assert((a + b).drop_last() =~= a + b.drop_last());
        assert((a + b).last() == b.last());
    }
}

/// Where a chunk ends does not matter: feeding a text in two pieces completes the same events, in
/// the same order, and leaves the buffer the same as feeding it whole.
pub proof fn law_chunk_boundaries_do_not_matter(buffer: SseView, a: Seq<char>, b: Seq<char>)
    ensures
        buffer.after(a).after(b) == buffer.after(a + b),
        buffer.read(a).payloads + buffer.after(a).read(b).payloads == buffer.read(a + b).payloads,
{
    let first = buffer.pending + a;
    lemma_split_pieces(first, '\n');
    lemma_split_extend(first, b, '\n');
    assert(first + b =~= buffer.pending + (a + b));
    let tail = split(first, '\n').last() + b;
    lemma_split_pieces(tail, '\n');
    let early = split(first, '\n').drop_last();
    let late = split(tail, '\n');
    assert((early + late).drop_last() =~= early + late.drop_last());
    assert((early + late).last() == late.last());
    let start = Framing { data: buffer.data, payloads: Seq::empty() };
    lemma_lines_add(start, early, late.drop_last());
    let middle = start.lines(early);
    lemma_earlier_payloads(middle.data, middle.payloads, Seq::empty(), late.drop_last());
    assert(middle.payloads + Seq::<Seq<char>>::empty() =~= middle.payloads);
}

/// Text that ends no line completes nothing: it waits.
pub proof fn law_an_open_line_waits(buffer: SseView, chunk: Seq<char>)
    requires
        !(buffer.pending + chunk).contains('\n'),
    ensures
        buffer.read(chunk).payloads.len() == 0,
        buffer.after(chunk) == (SseView { pending: buffer.pending + chunk, data: buffer.data }),
{
    crate::text::lemma_split_last(buffer.pending + chunk, '\n');
    assert(split(buffer.pending + chunk, '\n').drop_last() =~= Seq::<Seq<char>>::empty());
}

/// No payload ever carries an empty piece of the answer or of the reasoning.
pub proof fn law_no_delta_is_empty(value: JsonView, i: int)
    requires
        0 <= i < delta_events(value).len(),
    ensures
        match delta_events(value)[i] {
            StreamEventView::Content(text) => text.len() > 0,
            StreamEventView::Reasoning(text) => text.len() > 0,
            _ => true,
        },
{
}

/// The fragments of calls among some events, in order.
pub open spec fn fragments(events: Seq<StreamEventView>) -> Seq<StreamEventView> {
    events.filter(|event: StreamEventView| event is ToolCallDelta)
}

/// The choice of a payload that is read: the first of its list.
pub open spec fn choice_of(value: JsonView) -> Option<JsonView> {
    match value.get("choices"@) {
        Some(JsonView::List(choices)) => if choices.len() > 0 {
            Some(choices[0])
        } else {
            None
        },
        _ => None,
    }
}

/// The delta that is read: that of the first choice.
pub open spec fn delta_of(value: JsonView) -> Option<JsonView> {
    match choice_of(value) {
        Some(choice) => choice.get("delta"@),
        None => None,
    }
}

proof fn lemma_all_pass(events: Seq<StreamEventView>, keep: spec_fn(StreamEventView) -> bool)
    requires
        forall|i: int| 0 <= i < events.len() ==> keep(#[trigger] events[i]),
    ensures
        events.filter(keep) == events,
    decreases events.len(),
{
    reveal(Seq::filter);
    if events.len() > 0 {
        lemma_all_pass(events.drop_last(), keep);
        assert(keep(events[events.len() - 1]));
        assert(events.drop_last().push(events.last()) =~= events);
    }
}

proof fn lemma_none_pass(events: Seq<StreamEventView>, keep: spec_fn(StreamEventView) -> bool)
    requires
        forall|i: int| 0 <= i < events.len() ==> !keep(#[trigger] events[i]),
    ensures
        events.filter(keep) == Seq::<StreamEventView>::empty(),
    decreases events.len(),
{
    reveal(Seq::filter);
    if events.len() > 0 {
        lemma_none_pass(events.drop_last(), keep);
        assert(!keep(events[events.len() - 1]));
    }
}

proof fn lemma_filter_three(
    a: Seq<StreamEventView>,
    b: Seq<StreamEventView>,
    c: Seq<StreamEventView>,
    keep: spec_fn(StreamEventView) -> bool,
)
    requires
        forall|i: int| 0 <= i < a.len() ==> !keep(#[trigger] a[i]),
        forall|i: int| 0 <= i < b.len() ==> keep(#[trigger] b[i]),
        forall|i: int| 0 <= i < c.len() ==> !keep(#[trigger] c[i]),
    ensures
        (a + b + c).filter(keep) == b,
{
    lemma_none_pass(a, keep);
    lemma_all_pass(b, keep);
    lemma_none_pass(c, keep);
    Seq::filter_distributes_over_add(a, b, keep);
    Seq::filter_distributes_over_add(a + b, c, keep);
    assert(Seq::<StreamEventView>::empty() + b + Seq::<StreamEventView>::empty() =~= b);
}

proof fn lemma_fragments(value: JsonView)
    ensures
        fragments(delta_events(value)) == match delta_of(value) {
            Some(delta) => call_events(delta),
            None => Seq::empty(),
        },
{
    let keep = |event: StreamEventView| event is ToolCallDelta;
    let front = present(error_event(value)) + present(usage_event(value));
    let none = Seq::<StreamEventView>::empty();
    let (words, calls) = match delta_of(value) {
        Some(delta) => (
            present(content_event(delta)) + present(reasoning_event(delta)),
            call_events(delta),
        ),
        None => (none, none),
    };
    let back = match choice_of(value) {
        Some(choice) => present(finish_event(choice)),
        None => none,
    };
    assert(delta_events(value) =~= front + words + calls + back);
    lemma_filter_three(front + words, calls, back, keep);
}

/// The fragments of a payload are those its first choice lists, one for one and in that order.
/// Each goes under the number it came with, whatever its place, and under its place only where it
/// came with none; its id, its name and its piece of the arguments are the texts it holds.
pub proof fn law_a_fragment_goes_under_its_own_index(
    value: JsonView,
    delta: JsonView,
    calls: Seq<JsonView>,
)
    requires
        delta_of(value) == Some(delta),
        delta.get("tool_calls"@) == Some(JsonView::List(calls)),
    ensures
        fragments(delta_events(value)).len() == calls.len(),
        forall|i: int|
            0 <= i < calls.len() ==> match #[trigger] fragments(delta_events(value))[i] {
                StreamEventView::ToolCallDelta { index, id, name, arguments } => {
                    &&& match calls[i].get("index"@) {
                        Some(JsonView::Int(n)) => if 0 <= n <= u64::MAX {
                            index == (n as u64) as usize
                        } else {
                            index == i as usize
                        },
                        _ => index == i as usize,
                    }
                    &&& match calls[i].get("id"@) {
                        Some(JsonView::Text(text)) => id == Some(text),
                        _ => id is None,
                    }
                    &&& match calls[i].get_in("function"@, "name"@) {
                        Some(JsonView::Text(text)) => name == Some(text),
                        _ => name is None,
                    }
                    &&& match calls[i].get_in("function"@, "arguments"@) {
                        Some(JsonView::Text(text)) => arguments == Some(text),
                        _ => arguments is None,
                    }
                },
                _ => false,
            },
{
    lemma_fragments(value);
    assert(fragments(delta_events(value)) == call_events(delta));
    assert forall|i: int| 0 <= i < calls.len() implies #[trigger] fragments(delta_events(value))[i]
        == call_event(calls[i], i) by {}
}

/// A payload whose first choice lists no calls carries no fragment.
pub proof fn law_only_listed_calls_are_fragments(value: JsonView)
    requires
        match delta_of(value) {
            Some(delta) => !(delta.get("tool_calls"@) matches Some(JsonView::List(_))),
            None => true,
        },
    ensures
        fragments(delta_events(value)).len() == 0,
{
    lemma_fragments(value);
}

proof fn lemma_contains_add(a: Seq<StreamEventView>, b: Seq<StreamEventView>, e: StreamEventView)
    ensures
        (a + b).contains(e) == (a.contains(e) || b.contains(e)),
{
    if a.contains(e) {
        let i = choose|i: int| 0 <= i < a.len() && a[i] == e;
        assert((a + b)[i] == e);
    }
    if b.contains(e) {
        let i = choose|i: int| 0 <= i < b.len() && b[i] == e;
        assert((a + b)[a.len() + i] == e);
    }
    if (a + b).contains(e) {
        let i = choose|i: int| 0 <= i < (a + b).len() && (a + b)[i] == e;
        if i < a.len() {
            assert(a[i] == e);
        } else {
            assert(b[i - a.len()] == e);
        }
    }
}

proof fn lemma_contains_present(event: Option<StreamEventView>, e: StreamEventView)
    ensures
        present(event).contains(e) == (event == Some(e)),
{
    if event is Some {
        assert(present(event)[0] == event->0);
    }
}

/// What a payload carries, part by part.
proof fn lemma_carried(value: JsonView, e: StreamEventView)
    requires
        !(e is ToolCallDelta),
    ensures
        delta_events(value).contains(e) <==> {
            ||| error_event(value) == Some(e)
            ||| usage_event(value) == Some(e)
            ||| match choice_of(value) {
                Some(choice) => {
                    ||| match choice.get("delta"@) {
                        Some(delta) => content_event(delta) == Some(e) || reasoning_event(delta)
                            == Some(e),
                        None => false,
                    }
                    ||| finish_event(choice) == Some(e)
                },
                None => false,
            }
        },
{
    let front = present(error_event(value)) + present(usage_event(value));
    lemma_contains_add(present(error_event(value)), present(usage_event(value)), e);
    lemma_contains_present(error_event(value), e);
    lemma_contains_present(usage_event(value), e);
    match choice_of(value) {
        Some(choice) => {
            lemma_contains_add(front, choice_events(choice), e);
            lemma_contains_present(finish_event(choice), e);
            match choice.get("delta"@) {
                Some(delta) => {
                    let words = present(content_event(delta)) + present(reasoning_event(delta));
                    lemma_contains_add(
                        present(content_event(delta)),
                        present(reasoning_event(delta)),
                        e,
                    );
                    lemma_contains_present(content_event(delta), e);
                    lemma_contains_present(reasoning_event(delta), e);
                    lemma_contains_add(words, call_events(delta), e);
                    lemma_contains_add(
                        words + call_events(delta),
                        present(finish_event(choice)),
                        e,
                    );
                },
                None => {
                    lemma_contains_add(Seq::empty(), present(finish_event(choice)), e);
                },
            }
        },
        None => {
            assert(delta_events(value) =~= front);
        },
    }
}

/// A payload carries a piece of the answer exactly when its first choice holds one that is not
/// empty, and the same of the reasoning.
pub proof fn law_words_are_carried_as_they_came(value: JsonView, text: Seq<char>)
    ensures
        delta_events(value).contains(StreamEventView::Content(text)) <==> text.len() > 0
            && match delta_of(value) {
            Some(delta) => delta.get("content"@) == Some(JsonView::Text(text)),
            None => false,
        },
        delta_events(value).contains(StreamEventView::Reasoning(text)) <==> text.len() > 0
            && match delta_of(value) {
            Some(delta) => delta.get("reasoning_content"@) == Some(JsonView::Text(text)),
            None => false,
        },
{
    lemma_carried(value, StreamEventView::Content(text));
    lemma_carried(value, StreamEventView::Reasoning(text));
}

/// A payload carries an accounting exactly when one stands in it, whether or not it has a choice.
pub proof fn law_the_accounting_needs_no_choice(value: JsonView, usage: Usage)
    ensures
        delta_events(value).contains(StreamEventView::Usage(usage)) <==> match value.get(
            "usage"@,
        ) {
            Some(JsonView::Null) => false,
            Some(report) => usage == report_of(report).usage(),
            None => false,
        },
{
    lemma_carried(value, StreamEventView::Usage(usage));
}

/// The name a reason for stopping goes by.
pub open spec fn reason_name(reason: FinishReasonView) -> Seq<char> {
    match reason {
        FinishReasonView::Stop => "stop"@,
        FinishReasonView::ToolCalls => "tool_calls"@,
        FinishReasonView::Length => "length"@,
        FinishReasonView::ContentFilter => "content_filter"@,
        FinishReasonView::Other(name) => name,
    }
}

/// A payload tells why its first choice ended exactly when that choice names a reason. The reason
/// goes by the name it came with, and is kept as text only when it is none of the known ones.
pub proof fn law_a_reason_keeps_its_name(value: JsonView, reason: FinishReasonView)
    ensures
        delta_events(value).contains(StreamEventView::Finished(reason)) <==> {
            &&& match choice_of(value) {
                Some(choice) => choice.get("finish_reason"@) == Some(
                    JsonView::Text(reason_name(reason)),
                ),
                None => false,
            }
            &&& match reason {
                FinishReasonView::Other(name) => name != "stop"@ && name != "tool_calls"@ && name
                    != "length"@ && name != "content_filter"@,
                _ => true,
            }
        },
{
    reveal_strlit("stop");
    reveal_strlit("tool_calls");
    reveal_strlit("length");
    reveal_strlit("content_filter");
    lemma_carried(value, StreamEventView::Finished(reason));
    assert("stop"@.len() == 4 && "tool_calls"@.len() == 10 && "length"@.len() == 6
        && "content_filter"@.len() == 14);
}

/// A payload carries an error exactly when one stands in it, whether or not it has a choice. The
/// error is told in its own words: a bare text as it is, else its message, with its code behind it
/// in brackets where there is one and its type where it has no code.
pub proof fn law_an_error_is_told_in_its_own_words(
    value: JsonView,
    message: Seq<char>,
    code: Seq<char>,
)
    ensures
        (exists|text: Seq<char>| #[trigger]
            delta_events(value).contains(StreamEventView::Error(text))) <==> value.get(
            "error"@,
        ) is Some,
        forall|text: Seq<char>| #[trigger]
            delta_events(value).contains(StreamEventView::Error(text)) ==> {
                let error = value.get("error"@)->0;
                let named = match error.get("code"@) {
                    Some(code) => Some(code),
                    None => error.get("type"@),
                };
                &&& error matches JsonView::Text(whole) ==> text == whole
                &&& !(error is Text) && error.get("message"@) == Some(JsonView::Text(message))
                    && named == Some(JsonView::Text(code)) ==> text == message + " ("@ + code
                    + ")"@
                &&& !(error is Text) && error.get("message"@) == Some(JsonView::Text(message))
                    && !(named matches Some(JsonView::Text(_))) ==> text == message
                &&& !(error is Text) && !(error.get("message"@) matches Some(JsonView::Text(_)))
                    && named == Some(JsonView::Text(code)) ==> text
                    == "the API reported an error"@ + " ("@ + code + ")"@
                &&& !(error is Text) && !(error.get("message"@) matches Some(JsonView::Text(_)))
                    && !(named matches Some(JsonView::Text(_))) ==> text
                    == "the API reported an error"@
            },
{
    if value.get("error"@) is Some {
        let text = error_text(value.get("error"@)->0);
        lemma_carried(value, StreamEventView::Error(text));
        assert(delta_events(value).contains(StreamEventView::Error(text)));
    }
    assert forall|text: Seq<char>| #[trigger]
        delta_events(value).contains(StreamEventView::Error(text)) implies value.get("error"@)
        is Some && text == error_text(value.get("error"@)->0) by {
        lemma_carried(value, StreamEventView::Error(text));
    }
}

/// The place an event has in its payload.
pub open spec fn turn_of(event: StreamEventView) -> int {
    match event {
        StreamEventView::Error(_) => 0,
        StreamEventView::Usage(_) => 1,
        StreamEventView::Content(_) => 2,
        StreamEventView::Reasoning(_) => 3,
        StreamEventView::ToolCallDelta { .. } => 4,
        StreamEventView::Finished(_) => 5,
    }
}

/// The events of a payload come in one order, and only fragments come more than once: the error,
/// the accounting, the words, the reasoning, the calls, and why it ended.
pub proof fn law_a_payload_is_read_in_order(value: JsonView, i: int, j: int)
    requires
        0 <= i < j < delta_events(value).len(),
    ensures
        turn_of(delta_events(value)[i]) <= turn_of(delta_events(value)[j]),
        turn_of(delta_events(value)[i]) == turn_of(delta_events(value)[j]) ==> delta_events(
            value,
        )[i] is ToolCallDelta,
{
    let none = Seq::<StreamEventView>::empty();
    let (words, thoughts, calls) = match delta_of(value) {
        Some(delta) => (
            present(content_event(delta)),
            present(reasoning_event(delta)),
            call_events(delta),
        ),
        None => (none, none, none),
    };
    let end = match choice_of(value) {
        Some(choice) => present(finish_event(choice)),
        None => none,
    };
    let a = present(error_event(value)) + present(usage_event(value));
    let b = a + words;
    let c = b + thoughts;
    let d = c + calls;
    assert(delta_events(value) =~= d + end);
}

// What one line does

proof fn lemma_one_line(buffer: SseView, line: Seq<char>)
    requires
        buffer.pending.len() == 0,
        !line.contains('\n'),
    ensures
        buffer.after(line.push('\n')).pending.len() == 0,
        buffer.after(line.push('\n')).data == (Framing {
            data: buffer.data,
            payloads: Seq::empty(),
        }).line(line).data,
        buffer.read(line.push('\n')).payloads == (Framing {
            data: buffer.data,
            payloads: Seq::empty(),
        }).line(line).payloads,
{
    let text = buffer.pending + line.push('\n');
    let none = Seq::<char>::empty();
    assert(text =~= line.push('\n') + none);
    crate::text::lemma_split_first(line, '\n', none);
    crate::text::lemma_split_last(none, '\n');
    assert(split(text, '\n') =~= seq![line, none]);
    assert(split(text, '\n').drop_last() =~= seq![line]);
    let start = Framing { data: buffer.data, payloads: Seq::empty() };
    assert(seq![line].drop_last() =~= Seq::<Seq<char>>::empty());
    assert(seq![line].last() == line);
    reveal_with_fuel(Framing::lines, 2);
}

/// A `data:` line adds what stands behind the colon to the event, without the one space that may
/// come first, and completes nothing.
pub proof fn law_a_data_line_adds_to_its_event(buffer: SseView, rest: Seq<char>)
    requires
        buffer.pending.len() == 0,
        !rest.contains('\n'),
        rest.len() > 0 ==> rest.last() != '\r',
    ensures
        buffer.after(("data: "@ + rest).push('\n')) == (SseView {
            pending: Seq::empty(),
            data: buffer.data.push(rest),
        }),
        buffer.read(("data: "@ + rest).push('\n')).payloads.len() == 0,
        rest.len() == 0 || rest[0] != ' ' ==> {
            &&& buffer.after(("data:"@ + rest).push('\n')) == (SseView {
                pending: Seq::empty(),
                data: buffer.data.push(rest),
            })
            &&& buffer.read(("data:"@ + rest).push('\n')).payloads.len() == 0
        },
{
    reveal_strlit("data: ");
    reveal_strlit("data:");
    let spaced = "data: "@ + rest;
    let bare = "data:"@ + rest;
    assert(!spaced.contains('\n')) by {
        assert forall|i: int| 0 <= i < spaced.len() implies spaced[i] != '\n' by {
            if i >= 6 {
                assert(spaced[i] == rest[i - 6]);
                assert(rest.contains(rest[i - 6]));
            }
        }
    }
    assert(!bare.contains('\n')) by {
        assert forall|i: int| 0 <= i < bare.len() implies bare[i] != '\n' by {
            if i >= 5 {
                assert(bare[i] == rest[i - 5]);
                assert(rest.contains(rest[i - 5]));
            }
        }
    }
    lemma_one_line(buffer, spaced);
    lemma_one_line(buffer, bare);
    assert(strip_returns(spaced) == spaced);
    assert(strip_returns(bare) == bare);
    assert(spaced.take(5) =~= "data:"@);
    assert(bare.take(5) =~= "data:"@);
    assert(spaced.skip(5).skip(1) =~= rest);
    assert(bare.skip(5) =~= rest);
}

/// A blank line completes the event, if there is one, with its lines joined by line feeds, and
/// starts the next from nothing.
pub proof fn law_a_blank_line_completes_its_event(buffer: SseView)
    requires
        buffer.pending.len() == 0,
    ensures
        buffer.after(seq!['\n']).pending.len() == 0,
        buffer.after(seq!['\n']).data.len() == 0,
        buffer.data.len() > 0 ==> buffer.read(seq!['\n']).payloads == seq![
            join(buffer.data, seq!['\n']),
        ],
        buffer.data.len() == 0 ==> buffer.read(seq!['\n']).payloads.len() == 0,
{
    let none = Seq::<char>::empty();
    assert(none.push('\n') =~= seq!['\n']);
    lemma_one_line(buffer, none);
}

/// A line that says something else than `data:` leaves the event as it was: a keep-alive is not
/// taken for content.
pub proof fn law_other_lines_are_dropped(buffer: SseView, line: Seq<char>)
    requires
        buffer.pending.len() == 0,
        !line.contains('\n'),
        line.len() > 0,
        line.last() != '\r',
        !("data:"@.is_prefix_of(line)),
    ensures
        buffer.after(line.push('\n')) == buffer,
        buffer.read(line.push('\n')).payloads.len() == 0,
{
    reveal_strlit("data:");
    lemma_one_line(buffer, line);
    if begins(line, "data:"@) {
        assert("data:"@.is_prefix_of(line));
    }
}

/// A carriage return before the line feed makes no difference.
pub proof fn law_a_carriage_return_is_no_part_of_a_line(buffer: SseView, line: Seq<char>)
    requires
        buffer.pending.len() == 0,
        !line.contains('\n'),
    ensures
        buffer.after(line.push('\r').push('\n')) == buffer.after(line.push('\n')),
        buffer.read(line.push('\r').push('\n')).payloads == buffer.read(line.push('\n')).payloads,
{
    let returned = line.push('\r');
    assert(!returned.contains('\n')) by {
        assert forall|i: int| 0 <= i < returned.len() implies returned[i] != '\n' by {
            if i < line.len() {
                assert(returned[i] == line[i]);
                assert(line.contains(line[i]));
            }
        }
    }
    lemma_one_line(buffer, line);
    lemma_one_line(buffer, returned);
    assert(returned.drop_last() =~= line);
    assert(strip_returns(returned) == strip_returns(line));
}

} // verus!
