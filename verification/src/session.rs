//! The session file: lines of JSON, one for each thing that happened.
//!
//! A session is appended to while it happens, one line at a time, so a crash costs at most the line
//! being written. Recovery follows from that, and is strict: lines are read until one does not
//! parse, and reading stops there. The order of these lines is the contract, because the messages
//! are replayed in exactly this order, so a hole in the middle is something to report and stop at.

use vstd::prelude::*;

use crate::event::TurnUsage;
use crate::json::{
    count_at, entry_views, json_parse, json_text, lemma_distinct_add, lemma_get_add, lemma_get_one,
    lemma_plain_more, maybe_text_at, name_views, named, no_entries, object, parse_json, plain, put,
    text, text_at, write_json, Json, JsonView, READ_DEPTH,
};
use crate::message::{
    law_a_message_round_trips, lemma_text_entry, message_fields, message_in, message_views,
    text_entry, ChatMessage, ChatMessageView,
};
use crate::paths::{join_path, joined, path_view, same_path};
use crate::text::{
    after_from, blank, chars_of, comes_after, copy, copy_opt, decimal, decimal_of, is_blank,
    lemma_after_transitive, lemma_decimal_value, lemma_lines_first, lemma_lines_last,
    lemma_not_after_itself, lemma_upto_is, lines, lines_of, opt_view, parse_number,
    parse_number_of, same, string_of, upto, views,
};

verus! {

/// What a session file says about itself, on its first line.
#[derive(Debug, Clone, PartialEq)]
pub struct Header {
    /// The session's id, which is also its file's stem.
    pub id: String,
    pub model: String,
    pub cwd: String,
    /// Unix milliseconds. Not a formatted date: formatting needs a calendar, and the calendar
    /// belongs in whatever shows a list of sessions.
    pub started_at_ms: u64,
    /// The session this one was branched off, when it was.
    pub branched_from: Option<String>,
}

#[verifier::ext_equal]
pub struct HeaderView {
    pub id: Seq<char>,
    pub model: Seq<char>,
    pub cwd: Seq<char>,
    pub started_at_ms: u64,
    pub branched_from: Option<Seq<char>>,
}

impl View for Header {
    type V = HeaderView;

    open spec fn view(&self) -> HeaderView {
        HeaderView {
            id: self.id@,
            model: self.model@,
            cwd: self.cwd@,
            started_at_ms: self.started_at_ms,
            branched_from: opt_view(self.branched_from),
        }
    }
}

/// One line of a session file.
#[derive(Debug, Clone, PartialEq)]
pub enum Line {
    Header(Header),
    /// A message, exactly as it was sent or received. This is what makes a session replayable.
    Message(ChatMessage),
    /// What one turn cost.
    Usage(TurnUsage),
    /// A line the transcript would have shown: an error, a restart, something the user did.
    Note { text: String },
}

#[verifier::ext_equal]
pub enum LineView {
    Header(HeaderView),
    Message(ChatMessageView),
    Usage(TurnUsage),
    Note { text: Seq<char> },
}

impl View for Line {
    type V = LineView;

    open spec fn view(&self) -> LineView {
        match *self {
            Line::Header(header) => LineView::Header(header@),
            Line::Message(message) => LineView::Message(message@),
            Line::Usage(usage) => LineView::Usage(usage),
            Line::Note { text } => LineView::Note { text: text@ },
        }
    }
}

pub open spec fn line_views(lines: Seq<Line>) -> Seq<LineView> {
    Seq::new(lines.len(), |i: int| lines[i]@)
}

// ---------------------------------------------------------------------------------------------
// The time

/// Trusted: `SystemTime::elapsed` of the Unix epoch, in whole milliseconds; none when the clock
/// stands before the epoch. Nothing is promised of a clock.
#[verifier::external_body]
fn millis_since_epoch() -> (out: Option<u128>) {
    match std::time::UNIX_EPOCH.elapsed() {
        Ok(since) => Some(since.as_millis()),
        Err(_) => None,
    }
}

/// Milliseconds as they are recorded: a clock before the epoch counts as the epoch.
pub fn recorded_millis(since: Option<u128>) -> (out: u64)
    ensures
        out == (match since {
            Some(ms) => ms as u64,
            None => 0u64,
        }),
{
    match since {
        Some(ms) => ms as u64,
        None => 0,
    }
}

fn now_ms() -> u64 {
    recorded_millis(millis_since_epoch())
}

impl Header {
    /// A session that starts now and was not branched off another.
    pub fn new(id: &str, model: &str, cwd: &str) -> (out: Self)
        ensures
            out@ == (HeaderView {
                id: id@,
                model: model@,
                cwd: cwd@,
                started_at_ms: out.started_at_ms,
                branched_from: None,
            }),
    {
        Header::at(id, model, cwd, now_ms())
    }

    /// A session that started at a given time.
    pub fn at(id: &str, model: &str, cwd: &str, started_at_ms: u64) -> (out: Self)
        ensures
            out@ == (HeaderView {
                id: id@,
                model: model@,
                cwd: cwd@,
                started_at_ms,
                branched_from: None,
            }),
    {
        Header {
            id: copy(id),
            model: copy(model),
            cwd: copy(cwd),
            started_at_ms,
            branched_from: None,
        }
    }

    pub fn duplicate(&self) -> (out: Header)
        ensures
            out@ == self@,
    {
        Header {
            id: copy(&self.id),
            model: copy(&self.model),
            cwd: copy(&self.cwd),
            started_at_ms: self.started_at_ms,
            branched_from: copy_opt(&self.branched_from),
        }
    }
}

// ---------------------------------------------------------------------------------------------
// Lines as JSON

/// The entry that says what a line is.
pub open spec fn kind_entry(kind: Seq<char>) -> Seq<(Seq<char>, JsonView)> {
    seq![("kind"@, JsonView::Text(kind))]
}

impl HeaderView {
    pub open spec fn json(self) -> JsonView {
        JsonView::Object(
            seq![
                ("kind"@, JsonView::Text("header"@)),
                ("id"@, JsonView::Text(self.id)),
                ("model"@, JsonView::Text(self.model)),
                ("cwd"@, JsonView::Text(self.cwd)),
                ("started_at_ms"@, JsonView::Int(self.started_at_ms as int)),
            ] + text_entry("branched_from"@, self.branched_from),
        )
    }
}

pub open spec fn usage_json(usage: TurnUsage) -> JsonView {
    JsonView::Object(
        seq![
            ("kind"@, JsonView::Text("usage"@)),
            ("prompt_tokens"@, JsonView::Int(usage.prompt_tokens as int)),
            ("cache_hit_tokens"@, JsonView::Int(usage.cache_hit_tokens as int)),
            ("cache_miss_tokens"@, JsonView::Int(usage.cache_miss_tokens as int)),
            ("completion_tokens"@, JsonView::Int(usage.completion_tokens as int)),
            ("reasoning_tokens"@, JsonView::Int(usage.reasoning_tokens as int)),
        ],
    )
}

pub open spec fn note_json(text: Seq<char>) -> JsonView {
    JsonView::Object(
        seq![("kind"@, JsonView::Text("note"@)), ("text"@, JsonView::Text(text))],
    )
}

impl LineView {
    /// A line as it is written: an object that says first what it is.
    pub open spec fn json(self) -> JsonView {
        match self {
            LineView::Header(header) => header.json(),
            LineView::Message(message) => JsonView::Object(
                kind_entry("message"@) + message.json()->Object_0,
            ),
            LineView::Usage(usage) => usage_json(usage),
            LineView::Note { text } => note_json(text),
        }
    }
}

/// A header read from an object.
pub open spec fn header_of(value: JsonView) -> Option<HeaderView> {
    match (
        text_at(value, "id"@),
        text_at(value, "model"@),
        text_at(value, "cwd"@),
        count_at(value, "started_at_ms"@),
        maybe_text_at(value, "branched_from"@),
    ) {
        (Some(id), Some(model), Some(cwd), Some(started_at_ms), Some(branched_from)) => Some(
            HeaderView { id, model, cwd, started_at_ms, branched_from },
        ),
        _ => None,
    }
}

/// A turn's cost read from an object.
pub open spec fn usage_of(value: JsonView) -> Option<TurnUsage> {
    match (
        count_at(value, "prompt_tokens"@),
        count_at(value, "cache_hit_tokens"@),
        count_at(value, "cache_miss_tokens"@),
        count_at(value, "completion_tokens"@),
        count_at(value, "reasoning_tokens"@),
    ) {
        (
            Some(prompt_tokens),
            Some(cache_hit_tokens),
            Some(cache_miss_tokens),
            Some(completion_tokens),
            Some(reasoning_tokens),
        ) => Some(
            TurnUsage {
                prompt_tokens,
                cache_hit_tokens,
                cache_miss_tokens,
                completion_tokens,
                reasoning_tokens,
            },
        ),
        _ => None,
    }
}

/// The fields of a line of a kind, in their order, behind what says the kind.
pub open spec fn line_fields(kind: Seq<char>) -> Seq<Seq<char>> {
    if kind == "header"@ {
        seq!["kind"@, "id"@, "model"@, "cwd"@, "started_at_ms"@, "branched_from"@]
    } else if kind == "message"@ {
        seq!["kind"@] + message_fields()
    } else if kind == "usage"@ {
        seq![
            "kind"@,
            "prompt_tokens"@,
            "cache_hit_tokens"@,
            "cache_miss_tokens"@,
            "completion_tokens"@,
            "reasoning_tokens"@,
        ]
    } else {
        seq!["kind"@, "text"@]
    }
}

/// A line's kind, said first, and its fields behind it, in a list: the line with their names.
pub open spec fn spelled_out(value: JsonView) -> JsonView {
    match value.first() {
        Some(JsonView::Text(kind)) => named(value, line_fields(kind)),
        _ => value,
    }
}

/// A line read from an object, or from a list of its kind and its fields.
///
/// A key that stands twice in a text is not told from one that stands once: the reader of JSON keeps
/// the last value alone.
pub open spec fn line_of(value: JsonView) -> Option<LineView> {
    line_from(spelled_out(value))
}

/// A line read from an object, by what it says it is.
pub open spec fn line_from(value: JsonView) -> Option<LineView> {
    match text_at(value, "kind"@) {
        None => None,
        Some(kind) => if kind == "header"@ {
            match header_of(value) {
                Some(header) => Some(LineView::Header(header)),
                None => None,
            }
        } else if kind == "message"@ {
            match message_in(value) {
                Some(message) => Some(LineView::Message(message)),
                None => None,
            }
        } else if kind == "usage"@ {
            match usage_of(value) {
                Some(usage) => Some(LineView::Usage(usage)),
                None => None,
            }
        } else if kind == "note"@ {
            match text_at(value, "text"@) {
                Some(text) => Some(LineView::Note { text }),
                None => None,
            }
        } else {
            None
        },
    }
}

fn read_header(value: &Json) -> (out: Option<Header>)
    ensures
        match out {
            Some(header) => header_of(value@) == Some(header@),
            None => header_of(value@) is None,
        },
{
    match (
        value.text_under("id"),
        value.text_under("model"),
        value.text_under("cwd"),
        value.count_under("started_at_ms"),
        value.maybe_text_under("branched_from"),
    ) {
        (Some(id), Some(model), Some(cwd), Some(started_at_ms), Some(branched_from)) => Some(
            Header { id, model, cwd, started_at_ms, branched_from },
        ),
        _ => None,
    }
}

fn read_usage(value: &Json) -> (out: Option<TurnUsage>)
    ensures
        out == usage_of(value@),
{
    match (
        value.count_under("prompt_tokens"),
        value.count_under("cache_hit_tokens"),
        value.count_under("cache_miss_tokens"),
        value.count_under("completion_tokens"),
        value.count_under("reasoning_tokens"),
    ) {
        (
            Some(prompt_tokens),
            Some(cache_hit_tokens),
            Some(cache_miss_tokens),
            Some(completion_tokens),
            Some(reasoning_tokens),
        ) => Some(
            TurnUsage {
                prompt_tokens,
                cache_hit_tokens,
                cache_miss_tokens,
                completion_tokens,
                reasoning_tokens,
            },
        ),
        _ => None,
    }
}

/// The names of the fields of a line of a kind.
fn field_names(kind: &str) -> (out: Vec<&'static str>)
    ensures
        name_views(out@) == line_fields(kind@),
{
    let out: Vec<&'static str> = if same(kind, "header") {
        vec!["kind", "id", "model", "cwd", "started_at_ms", "branched_from"]
    } else if same(kind, "message") {
        vec!["kind", "role", "content", "reasoning_content", "tool_calls", "tool_call_id"]
    } else if same(kind, "usage") {
        vec![
            "kind",
            "prompt_tokens",
            "cache_hit_tokens",
            "cache_miss_tokens",
            "completion_tokens",
            "reasoning_tokens",
        ]
    } else {
        vec!["kind", "text"]
    };
    assert(name_views(out@) =~= line_fields(kind@));
    out
}

impl Line {
    /// A line read from an object, or from a list of its kind and its fields; none when it is not one
    /// of these lines.
    pub fn from_json(value: &Json) -> (out: Option<Line>)
        ensures
            match out {
                Some(line) => line_of(value@) == Some(line@),
                None => line_of(value@) is None,
            },
    {
        let spelled: Option<Json> = match value.first() {
            Some(Json::Text(kind)) => value.named(&field_names(kind)),
            _ => None,
        };
        match spelled {
            Some(value) => Line::from_object(&value),
            None => Line::from_object(value),
        }
    }

    fn from_object(value: &Json) -> (out: Option<Line>)
        ensures
            match out {
                Some(line) => line_from(value@) == Some(line@),
                None => line_from(value@) is None,
            },
    {
        let kind: String = match value.text_under("kind") {
            Some(kind) => kind,
            None => {
                return None;
            },
        };
        if same(&kind, "header") {
            match read_header(value) {
                Some(header) => Some(Line::Header(header)),
                None => None,
            }
        } else if same(&kind, "message") {
            match ChatMessage::from_object(value) {
                Some(message) => Some(Line::Message(message)),
                None => None,
            }
        } else if same(&kind, "usage") {
            match read_usage(value) {
                Some(usage) => Some(Line::Usage(usage)),
                None => None,
            }
        } else if same(&kind, "note") {
            match value.text_under("text") {
                Some(text) => Some(Line::Note { text }),
                None => None,
            }
        } else {
            None
        }
    }

    /// The object a line is written as.
    pub fn to_json(&self) -> (out: Json)
        ensures
            out@ == self@.json(),
    {
        let mut entries = no_entries();
        match self {
            Line::Header(header) => {
                put(&mut entries, "kind", text("header"));
                put(&mut entries, "id", text(&header.id));
                put(&mut entries, "model", text(&header.model));
                put(&mut entries, "cwd", text(&header.cwd));
                put(&mut entries, "started_at_ms", Json::Unsigned(header.started_at_ms));
                match &header.branched_from {
                    Some(from) => {
                        put(&mut entries, "branched_from", text(from));
                    },
                    None => {},
                }
                assert(entry_views(entries@) =~= self@.json()->Object_0);
            },
            Line::Message(message) => {
                put(&mut entries, "kind", text("message"));
                let ghost front = entries@;
                match message.to_json() {
                    Json::Object(rest) => {
                        let mut rest = rest;
                        let ghost own = rest@;
                        assert(entry_views(own) =~= message@.json()->Object_0);
                        entries.append(&mut rest);
                        assert(entry_views(entries@) =~= entry_views(front) + entry_views(own));
                        assert(entry_views(front) =~= kind_entry("message"@));
                    },
                    _ => {},
                }
            },
            Line::Usage(usage) => {
                put(&mut entries, "kind", text("usage"));
                put(&mut entries, "prompt_tokens", Json::Unsigned(usage.prompt_tokens));
                put(&mut entries, "cache_hit_tokens", Json::Unsigned(usage.cache_hit_tokens));
                put(&mut entries, "cache_miss_tokens", Json::Unsigned(usage.cache_miss_tokens));
                put(&mut entries, "completion_tokens", Json::Unsigned(usage.completion_tokens));
                put(&mut entries, "reasoning_tokens", Json::Unsigned(usage.reasoning_tokens));
                assert(entry_views(entries@) =~= self@.json()->Object_0);
            },
            Line::Note { text: words } => {
                put(&mut entries, "kind", text("note"));
                put(&mut entries, "text", text(words));
                assert(entry_views(entries@) =~= self@.json()->Object_0);
            },
        }
        object(entries)
    }

    pub fn duplicate(&self) -> (out: Line)
        ensures
            out@ == self@,
    {
        match self {
            Line::Header(header) => Line::Header(header.duplicate()),
            Line::Message(message) => Line::Message(message.duplicate()),
            Line::Usage(usage) => Line::Usage(*usage),
            Line::Note { text } => Line::Note { text: copy(text) },
        }
    }
}

// ---------------------------------------------------------------------------------------------
// Lines as text

/// The line that a text holds.
pub open spec fn line_in(raw: Seq<char>) -> Option<LineView> {
    match json_parse(raw) {
        Ok(value) => line_of(value),
        Err(_) => None,
    }
}

fn read_line(raw: &str) -> (out: Option<Line>)
    ensures
        match out {
            Some(line) => line_in(raw@) == Some(line@),
            None => line_in(raw@) is None,
        },
{
    match parse_json(raw) {
        Ok(value) => Line::from_json(&value),
        Err(_) => None,
    }
}

/// Whether a text is a line as it is appended: one row of text that holds the line, and its end.
pub open spec fn written(line: LineView, out: Seq<char>) -> bool {
    let body = out.drop_last();
    &&& out.len() > 0
    &&& out.last() == '\n'
    &&& !body.contains('\n')
    &&& !body.contains('\r')
    &&& !blank(body)
    &&& line_in(body) == Some(line)
}

/// What is appended to a session file for a line.
pub fn line_text(line: &Line) -> (out: String)
    ensures
        out@ == json_text(line@.json()).push('\n'),
        written(line@, out@),
{
    let json = line.to_json();
    proof {
        law_a_line_round_trips(line@);
        lemma_plain_more(line@.json(), 4, READ_DEPTH as nat);
    }
    let mut out = write_json(&json);
    let ghost body = out@;
    out.push('\n');
    assert(out@.drop_last() =~= body);
    assert(!crate::text::white(body[0]));
    out
}

/// What is appended for messages, in the order they are given: one text for each.
pub fn message_texts(messages: &[ChatMessage]) -> (out: Vec<String>)
    ensures
        out@.len() == messages@.len(),
        forall|i: int|
            0 <= i < out@.len() ==> {
                let line = LineView::Message(messages@[i]@);
                (#[trigger] out@[i])@ == json_text(line.json()).push('\n') && written(
                    line,
                    out@[i]@,
                )
            },
{
    let mut out: Vec<String> = Vec::new();
    let mut i: usize = 0;
    while i < messages.len()
        invariant
            i <= messages@.len(),
            out@.len() == i,
            forall|k: int|
                0 <= k < i ==> {
                    let line = LineView::Message(messages@[k]@);
                    (#[trigger] out@[k])@ == json_text(line.json()).push('\n') && written(
                        line,
                        out@[k]@,
                    )
                },
        decreases messages@.len() - i,
    {
        let line = Line::Message(messages[i].duplicate());
        out.push(line_text(&line));
        i += 1;
    }
    out
}

// ---------------------------------------------------------------------------------------------
// Recovery

/// What could be read back out of a session file.
#[derive(Debug, Clone, PartialEq)]
pub struct Recovered {
    /// The first line's header, when the file has one.
    pub header: Option<Header>,
    pub lines: Vec<Line>,
    /// Where reading stopped, 0-based, when it stopped before the end of the file.
    ///
    /// `None` means everything in the file was understood.
    pub stopped_at: Option<usize>,
}

#[verifier::ext_equal]
pub struct RecoveredView {
    pub header: Option<HeaderView>,
    pub lines: Seq<LineView>,
    pub stopped_at: Option<int>,
}

impl View for Recovered {
    type V = RecoveredView;

    open spec fn view(&self) -> RecoveredView {
        RecoveredView {
            header: match self.header {
                Some(header) => Some(header@),
                None => None,
            },
            lines: line_views(self.lines@),
            stopped_at: match self.stopped_at {
                Some(at) => Some(at as int),
                None => None,
            },
        }
    }
}

/// The lines read from `from` on, up to the first that is neither blank nor readable, and where
/// that one is.
pub open spec fn read_from(raws: Seq<Seq<char>>, from: int) -> (Seq<LineView>, Option<int>)
    decreases raws.len() - from,
{
    if from < 0 || from >= raws.len() {
        (Seq::empty(), None)
    } else if blank(raws[from]) {
        read_from(raws, from + 1)
    } else {
        match line_in(raws[from]) {
            Some(line) => {
                let (rest, stopped) = read_from(raws, from + 1);
                (seq![line] + rest, stopped)
            },
            None => (Seq::empty(), Some(from)),
        }
    }
}

/// What is read back out of a file that holds these rows.
pub open spec fn recovered(raws: Seq<Seq<char>>) -> RecoveredView {
    RecoveredView {
        header: if raws.len() > 0 && !blank(raws[0]) {
            match line_in(raws[0]) {
                Some(LineView::Header(header)) => Some(header),
                _ => None,
            }
        } else {
            None
        },
        lines: read_from(raws, 0).0,
        stopped_at: read_from(raws, 0).1,
    }
}

/// Reads the text of a session file, stopping at the first line that cannot be understood.
pub fn recover(text: &str) -> (out: Recovered)
    ensures
        out@ == recovered(lines(text@)),
{
    let raws = lines_of(text);
    let ghost all = lines(text@);
    let mut header: Option<Header> = None;
    let mut found: Vec<Line> = Vec::new();
    let mut i: usize = 0;
    assert(line_views(found@) =~= Seq::<LineView>::empty());
    assert(Seq::<LineView>::empty() + read_from(all, 0).0 =~= read_from(all, 0).0);
    while i < raws.len()
        invariant
            all == lines(text@),
            all == views(raws@),
            i <= raws@.len(),
            read_from(all, 0).0 == line_views(found@) + read_from(all, i as int).0,
            read_from(all, 0).1 == read_from(all, i as int).1,
            i == 0 ==> header is None,
            i > 0 ==> (match header {
                Some(h) => recovered(all).header == Some(h@),
                None => recovered(all).header is None,
            }),
        decreases raws@.len() - i,
    {
        assert(all[i as int] == raws@[i as int]@);
        if !is_blank(&raws[i]) {
            match read_line(&raws[i]) {
                Some(line) => {
                    if i == 0 {
                        match &line {
                            Line::Header(own) => {
                                header = Some(own.duplicate());
                            },
                            _ => {},
                        }
                    }
                    let ghost before = line_views(found@);
                    proof {
                        let rest = read_from(all, i + 1).0;
                        assert(before + (seq![line@] + rest) =~= before.push(line@) + rest);
                    }
                    found.push(line);
                    assert(line_views(found@) =~= before.push(line@));
                },
                None => {
                    let out = Recovered { header, lines: found, stopped_at: Some(i) };
                    assert(read_from(all, 0).0 =~= line_views(found@));
                    assert(out@ =~= recovered(all));
                    return out;
                },
            }
        }
        i += 1;
    }
    let out = Recovered { header, lines: found, stopped_at: None };
    assert(read_from(all, 0).0 =~= line_views(found@));
    assert(out@ =~= recovered(all));
    out
}

/// The messages among lines, in their order.
pub open spec fn messages_in(lines: Seq<LineView>) -> Seq<ChatMessageView>
    decreases lines.len(),
{
    if lines.len() == 0 {
        Seq::empty()
    } else {
        match lines.last() {
            LineView::Message(message) => messages_in(lines.drop_last()).push(message),
            _ => messages_in(lines.drop_last()),
        }
    }
}

/// The costs among lines, in their order.
pub open spec fn usages_in(lines: Seq<LineView>) -> Seq<TurnUsage>
    decreases lines.len(),
{
    if lines.len() == 0 {
        Seq::empty()
    } else {
        match lines.last() {
            LineView::Usage(usage) => usages_in(lines.drop_last()).push(usage),
            _ => usages_in(lines.drop_last()),
        }
    }
}

impl Recovered {
    /// The conversation, in the order it happened: no reordering, no de-duplication and no
    /// rewriting, because this is what gets replayed.
    pub fn messages(&self) -> (out: Vec<ChatMessage>)
        ensures
            message_views(out@) == messages_in(self@.lines),
    {
        let ghost all = self@.lines;
        let mut out: Vec<ChatMessage> = Vec::new();
        let mut i: usize = 0;
        assert(message_views(out@) =~= messages_in(all.take(0)));
        while i < self.lines.len()
            invariant
                all == line_views(self.lines@),
                i <= self.lines@.len(),
                message_views(out@) == messages_in(all.take(i as int)),
            decreases self.lines@.len() - i,
        {
            assert(all.take(i + 1).drop_last() =~= all.take(i as int));
            assert(all.take(i + 1).last() == self.lines@[i as int]@);
            match &self.lines[i] {
                Line::Message(message) => {
                    let ghost before = message_views(out@);
                    let own = message.duplicate();
                    out.push(own);
                    assert(message_views(out@) =~= before.push(own@));
                },
                _ => {},
            }
            i += 1;
        }
        assert(all.take(all.len() as int) =~= all);
        out
    }

    /// What the turns cost, in order.
    pub fn usages(&self) -> (out: Vec<TurnUsage>)
        ensures
            out@ == usages_in(self@.lines),
    {
        let ghost all = self@.lines;
        let mut out: Vec<TurnUsage> = Vec::new();
        let mut i: usize = 0;
        assert(out@ =~= usages_in(all.take(0)));
        while i < self.lines.len()
            invariant
                all == line_views(self.lines@),
                i <= self.lines@.len(),
                out@ == usages_in(all.take(i as int)),
            decreases self.lines@.len() - i,
        {
            assert(all.take(i + 1).drop_last() =~= all.take(i as int));
            assert(all.take(i + 1).last() == self.lines@[i as int]@);
            match &self.lines[i] {
                Line::Usage(usage) => {
                    out.push(*usage);
                },
                _ => {},
            }
            i += 1;
        }
        assert(all.take(all.len() as int) =~= all);
        out
    }

    /// Whether the file was read to its end.
    pub fn is_complete(&self) -> (out: bool)
        ensures
            out == (self@.stopped_at is None),
    {
        self.stopped_at.is_none()
    }
}

// ---------------------------------------------------------------------------------------------
// Opening and branching

pub open spec fn no_header_text(path: Seq<char>) -> Seq<char> {
    path + " does not start with a session header"@
}

pub open spec fn no_session_text(path: Seq<char>) -> Seq<char> {
    path + " is not a session file"@
}

fn no_session(path: &str) -> (out: String)
    ensures
        out@ == no_session_text(path@),
{
    let mut out = copy(path);
    out.append(" is not a session file");
    out
}

/// The header of a session that is continued. It is read back rather than assumed, so a caller that
/// opens the wrong file finds out here.
pub fn reopened(found: &Recovered, path: &str) -> (out: Result<Header, String>)
    ensures
        match out {
            Ok(header) => found@.header == Some(header@),
            Err(message) => found@.header is None && message@ == no_header_text(path@),
        },
{
    match &found.header {
        Some(header) => Ok(header.duplicate()),
        None => {
            let mut message = copy(path);
            message.append(" does not start with a session header");
            Err(message)
        },
    }
}

/// The lines that are not headers, in their order.
pub open spec fn without_headers(lines: Seq<LineView>) -> Seq<LineView>
    decreases lines.len(),
{
    if lines.len() == 0 {
        Seq::empty()
    } else if lines.last() is Header {
        without_headers(lines.drop_last())
    } else {
        without_headers(lines.drop_last()).push(lines.last())
    }
}

/// The first `n` of a list, or all of it.
pub open spec fn at_most<A>(list: Seq<A>, n: int) -> Seq<A> {
    if n < list.len() {
        list.take(n)
    } else {
        list
    }
}

/// The lines of a branch: the header under its new id, with where it came from, and the first
/// `keep` of the other lines.
pub open spec fn branched(
    header: HeaderView,
    lines: Seq<LineView>,
    keep: int,
    id: Seq<char>,
) -> Seq<LineView> {
    seq![LineView::Header(HeaderView { id, branched_from: Some(header.id), ..header })] + at_most(
        without_headers(lines),
        keep,
    )
}

/// Copies a session up to `keep` lines into a new one, so the branch starts from a decision point
/// instead of from the beginning.
pub fn branch(found: &Recovered, path: &str, keep: usize, new_id: &str) -> (out: Result<
    Vec<Line>,
    String,
>)
    ensures
        match out {
            Ok(lines) => found@.header is Some && line_views(lines@) == branched(
                found@.header->0,
                found@.lines,
                keep as int,
                new_id@,
            ),
            Err(message) => found@.header is None && message@ == no_session_text(path@),
        },
{
    let header = match &found.header {
        Some(header) => header,
        None => {
            return Err(no_session(path));
        },
    };
    let mut own = header.duplicate();
    own.id = copy(new_id);
    own.branched_from = Some(copy(&header.id));
    let ghost all = found@.lines;
    let ghost first = LineView::Header(own@);
    let mut out: Vec<Line> = Vec::new();
    let mut kept: usize = 0;
    out.push(Line::Header(own));
    let mut i: usize = 0;
    assert(line_views(out@) =~= seq![first] + at_most(without_headers(all.take(0)), keep as int));
    while i < found.lines.len()
        invariant
            all == line_views(found.lines@),
            i <= found.lines@.len(),
            kept <= i,
            kept == at_most(without_headers(all.take(i as int)), keep as int).len(),
            line_views(out@) == seq![first] + at_most(
                without_headers(all.take(i as int)),
                keep as int,
            ),
        decreases found.lines@.len() - i,
    {
        let ghost before = without_headers(all.take(i as int));
        assert(all.take(i + 1).drop_last() =~= all.take(i as int));
        assert(all.take(i + 1).last() == found.lines@[i as int]@);
        match &found.lines[i] {
            Line::Header(_) => {},
            other => {
                let ghost line = other@;
                assert(!(line is Header));
                if kept < keep {
                    let ghost so_far = line_views(out@);
                    assert(before.len() <= keep);
                    assert(at_most(before, keep as int) =~= before);
                    assert(at_most(before.push(line), keep as int) =~= before.push(line));
                    let copied = other.duplicate();
                    out.push(copied);
                    assert(line_views(out@) =~= so_far.push(line));
                    assert(line_views(out@) =~= seq![first] + before.push(line));
                    kept += 1;
                } else {
                    assert(at_most(before.push(line), keep as int) =~= at_most(
                        before,
                        keep as int,
                    ));
                }
            },
        }
        i += 1;
    }
    assert(all.take(all.len() as int) =~= all);
    Ok(out)
}

// ---------------------------------------------------------------------------------------------
// Choosing a session

/// A session on disk: where it is, and what its header says.
#[derive(Debug, Clone, PartialEq)]
pub struct Summary {
    pub path: String,
    pub header: Header,
}

#[verifier::ext_equal]
pub struct SummaryView {
    pub path: Seq<char>,
    pub header: HeaderView,
}

impl View for Summary {
    type V = SummaryView;

    open spec fn view(&self) -> SummaryView {
        SummaryView { path: self.path@, header: self.header@ }
    }
}

pub open spec fn summary_views(list: Seq<Summary>) -> Seq<SummaryView> {
    Seq::new(list.len(), |i: int| list[i]@)
}

impl Summary {
    /// The id, which is what a person types to name this session.
    pub fn id(&self) -> (out: &str)
        ensures
            out@ == self@.header.id,
    {
        self.header.id.as_str()
    }
}

/// The first row that carries anything.
pub open spec fn first_row(raws: Seq<Seq<char>>, from: int) -> Option<Seq<char>>
    decreases raws.len() - from,
{
    if from < 0 || from >= raws.len() {
        None
    } else if blank(raws[from]) {
        first_row(raws, from + 1)
    } else {
        Some(raws[from])
    }
}

/// The session a file is: the first row that carries anything has to be its header.
pub open spec fn summary_of(path: Seq<char>, text: Seq<char>) -> Option<SummaryView> {
    match first_row(lines(text), 0) {
        Some(raw) => match line_in(raw) {
            Some(LineView::Header(header)) => Some(SummaryView { path, header }),
            _ => None,
        },
        None => None,
    }
}

/// Reads a session file's header line and nothing else: `text` has to reach no further than the
/// first row that carries anything.
pub fn summary(path: &str, text: &str) -> (out: Result<Summary, String>)
    ensures
        match out {
            Ok(summary) => summary_of(path@, text@) == Some(summary@),
            Err(message) => summary_of(path@, text@) is None && message@ == no_session_text(path@),
        },
{
    let raws = lines_of(text);
    let ghost all = lines(text@);
    let mut i: usize = 0;
    while i < raws.len()
        invariant
            all == lines(text@),
            all == views(raws@),
            i <= raws@.len(),
            first_row(all, 0) == first_row(all, i as int),
        decreases raws@.len() - i,
    {
        assert(all[i as int] == raws@[i as int]@);
        if !is_blank(&raws[i]) {
            return match read_line(&raws[i]) {
                Some(Line::Header(header)) => Ok(Summary { path: copy(path), header }),
                _ => Err(no_session(path)),
            };
        }
        i += 1;
    }
    Err(no_session(path))
}

/// What a session file's name ends with.
pub const EXTENSION: &'static str = ".jsonl";

/// Where a session is kept.
pub open spec fn session_path(dir: Seq<char>, id: Seq<char>) -> Seq<char> {
    joined(dir, id + EXTENSION@)
}

/// Where a session is kept: its id is its file's stem.
pub fn session_file(dir: &str, id: &str) -> (out: String)
    ensures
        out@ == session_path(dir@, id@),
{
    let mut name = copy(id);
    name.append(EXTENSION);
    join_path(dir, &name)
}

/// Whether a file's name says that it holds a session.
pub open spec fn session_name(name: Seq<char>) -> bool {
    &&& name.len() > EXTENSION@.len()
    &&& name.skip(name.len() - EXTENSION@.len()) == EXTENSION@
}

pub fn is_session_name(name: &str) -> (out: bool)
    ensures
        out == session_name(name@),
{
    let chars = chars_of(name);
    let end = chars_of(EXTENSION);
    let n: usize = chars.len();
    let m: usize = end.len();
    if n <= m {
        return false;
    }
    let back = string_of(vstd::slice::slice_subrange(&chars, n - m, n));
    assert(chars@.subrange(n - m, n as int) =~= name@.skip(n - m));
    same(&back, EXTENSION)
}

/// The numbers of an id: the millisecond it was made in and the counter within it.
pub open spec fn id_parts(id: Seq<char>) -> Option<(nat, nat)> {
    let k = upto(id, '-');
    if k == id.len() {
        None
    } else {
        match (parse_number(id.take(k)), parse_number(id.skip(k + 1))) {
            (Some(millis), Some(counter)) => Some((millis, counter)),
            _ => None,
        }
    }
}

fn parse_id(id: &str) -> (out: Option<(u64, u64)>)
    ensures
        match out {
            Some(parts) => id_parts(id@) == Some((parts.0 as nat, parts.1 as nat)),
            None => id_parts(id@) is None,
        },
{
    let chars = chars_of(id);
    let n: usize = chars.len();
    let mut k: usize = 0;
    while k < n && chars[k] != '-'
        invariant
            n == chars@.len(),
            k <= n,
            forall|i: int| 0 <= i < k ==> chars@[i] != '-',
        decreases n - k,
    {
        k += 1;
    }
    proof {
        lemma_upto_is(id@, '-', k as int);
    }
    if k == n {
        return None;
    }
    assert(chars@.subrange(0, k as int) =~= id@.take(k as int));
    assert(chars@.subrange(k + 1, n as int) =~= id@.skip(k + 1));
    match (
        parse_number_of(vstd::slice::slice_subrange(&chars, 0, k)),
        parse_number_of(vstd::slice::slice_subrange(&chars, k + 1, n)),
    ) {
        (Some(millis), Some(counter)) => Some((millis, counter)),
        _ => None,
    }
}

/// Whether one id is newer than another: by the millisecond, then by the counter. An id that does
/// not parse is older than one that does, and two of them go by text.
pub open spec fn newer(a: Seq<char>, b: Seq<char>) -> bool {
    match (id_parts(a), id_parts(b)) {
        (Some(a), Some(b)) => a.0 > b.0 || (a.0 == b.0 && a.1 > b.1),
        (Some(_), None) => true,
        (None, Some(_)) => false,
        (None, None) => after_from(a, b, 0),
    }
}

fn is_newer(a: &str, b: &str) -> (out: bool)
    ensures
        out == newer(a@, b@),
{
    match (parse_id(a), parse_id(b)) {
        (Some(a), Some(b)) => a.0 > b.0 || (a.0 == b.0 && a.1 > b.1),
        (Some(_), None) => true,
        (None, Some(_)) => false,
        (None, None) => comes_after(a, b),
    }
}

/// The first place, from `from` on, where an older session stands.
pub open spec fn place(list: Seq<SummaryView>, one: SummaryView, from: int) -> int
    decreases list.len() - from,
{
    if from < 0 || from >= list.len() || newer(one.header.id, list[from].header.id) {
        from
    } else {
        place(list, one, from + 1)
    }
}

/// The beginning of a session file, with where it is.
#[derive(Debug, Clone, PartialEq)]
pub struct SessionText {
    pub path: String,
    pub text: String,
}

pub open spec fn file_views(files: Seq<SessionText>) -> Seq<(Seq<char>, Seq<char>)> {
    Seq::new(files.len(), |i: int| (files[i].path@, files[i].text@))
}

/// The sessions among files, in the order of the files.
pub open spec fn sessions_in(files: Seq<(Seq<char>, Seq<char>)>) -> Seq<SummaryView>
    decreases files.len(),
{
    if files.len() == 0 {
        Seq::empty()
    } else {
        match summary_of(files.last().0, files.last().1) {
            Some(one) => sessions_in(files.drop_last()).push(one),
            None => sessions_in(files.drop_last()),
        }
    }
}

/// Sessions, each put in front of the first that is older.
pub open spec fn newest_first(sessions: Seq<SummaryView>) -> Seq<SummaryView>
    decreases sessions.len(),
{
    if sessions.len() == 0 {
        Seq::empty()
    } else {
        let before = newest_first(sessions.drop_last());
        before.insert(place(before, sessions.last(), 0), sessions.last())
    }
}

/// Every session among files, newest first; files with the same id keep their order.
///
/// One file that is not a session is skipped rather than fatal: a bad file should not hide every
/// good one. Ordering is by id, which starts with the millisecond the session was created at, so it
/// does not move when an old session is reopened.
pub fn list(files: &[SessionText]) -> (out: Vec<Summary>)
    ensures
        summary_views(out@) == newest_first(sessions_in(file_views(files@))),
{
    let ghost all = file_views(files@);
    let mut out: Vec<Summary> = Vec::new();
    let mut i: usize = 0;
    assert(all.take(0) =~= Seq::<(Seq<char>, Seq<char>)>::empty());
    assert(summary_views(out@) =~= Seq::<SummaryView>::empty());
    while i < files.len()
        invariant
            all == file_views(files@),
            i <= files@.len(),
            summary_views(out@) == newest_first(sessions_in(all.take(i as int))),
        decreases files@.len() - i,
    {
        assert(all.take(i + 1).drop_last() =~= all.take(i as int));
        assert(all.take(i + 1).last() == (files@[i as int].path@, files@[i as int].text@));
        match summary(&files[i].path, &files[i].text) {
            Ok(one) => {
                let ghost before = summary_views(out@);
                let mut k: usize = 0;
                while k < out.len() && !is_newer(&one.header.id, &out[k].header.id)
                    invariant
                        before == summary_views(out@),
                        k <= out@.len(),
                        place(before, one@, 0) == place(before, one@, k as int),
                    decreases out@.len() - k,
                {
                    assert(before[k as int] == out@[k as int]@);
                    k += 1;
                }
                proof {
                    let sessions = sessions_in(all.take(i + 1));
                    assert(sessions.drop_last() =~= sessions_in(all.take(i as int)));
                    if k < out@.len() {
                        assert(before[k as int] == out@[k as int]@);
                    }
                }
                out.insert(k, one);
                assert(summary_views(out@) =~= before.insert(k as int, one@));
            },
            Err(_) => {},
        }
        i += 1;
    }
    assert(all.take(all.len() as int) =~= all);
    out
}

/// One session by id, from what stands in its file; a file that is not there is not an error.
pub fn by_id(dir: &str, id: &str, text: Option<&str>) -> (out: Result<Option<Summary>, String>)
    ensures
        match out {
            Ok(None) => text is None,
            Ok(Some(summary)) => text is Some && summary_of(session_path(dir@, id@), text->0@)
                == Some(summary@),
            Err(message) => text is Some && summary_of(session_path(dir@, id@), text->0@) is None
                && message@ == no_session_text(session_path(dir@, id@)),
        },
{
    match text {
        None => Ok(None),
        Some(text) => match summary(&session_file(dir, id), text) {
            Ok(summary) => Ok(Some(summary)),
            Err(message) => Err(message),
        },
    }
}

/// The first session, from `from` on, that was held in a directory.
pub open spec fn held_in(list: Seq<SummaryView>, cwd: Seq<char>, from: int) -> Option<SummaryView>
    decreases list.len() - from,
{
    if from < 0 || from >= list.len() {
        None
    } else if path_view(list[from].header.cwd) == path_view(cwd) {
        Some(list[from])
    } else {
        held_in(list, cwd, from + 1)
    }
}

/// The most recent session held in `cwd`, from a list that is newest first.
///
/// Resuming another project's conversation is worse than resuming nothing, so the working directory
/// has to match.
pub fn latest_in(listed: &[Summary], cwd: &str) -> (out: Option<Summary>)
    ensures
        match out {
            Some(summary) => held_in(summary_views(listed@), cwd@, 0) == Some(summary@),
            None => held_in(summary_views(listed@), cwd@, 0) is None,
        },
{
    let ghost all = summary_views(listed@);
    let mut i: usize = 0;
    while i < listed.len()
        invariant
            all == summary_views(listed@),
            i <= listed@.len(),
            held_in(all, cwd@, 0) == held_in(all, cwd@, i as int),
        decreases listed@.len() - i,
    {
        assert(all[i as int] == listed@[i as int]@);
        if same_path(&listed[i].header.cwd, cwd) {
            return Some(
                Summary { path: copy(&listed[i].path), header: listed[i].header.duplicate() },
            );
        }
        i += 1;
    }
    None
}

/// The id of the session with a given counter, made at a given millisecond.
pub open spec fn id_text(millis: nat, counter: nat) -> Seq<char> {
    decimal(millis) + seq!['-'] + decimal(counter)
}

/// An id for a given time and counter.
pub fn id_at(millis: u64, counter: u64) -> (out: String)
    ensures
        out@ == id_text(millis as nat, counter as nat),
{
    let mut out = decimal_of(millis);
    out.push('-');
    out.append(&decimal_of(counter));
    assert(out@ =~= id_text(millis as nat, counter as nat));
    out
}

/// A session id that sorts by time and, as long as no counter is used twice, cannot collide.
pub fn new_id(counter: u64) -> (out: String)
    ensures
        exists|millis: u64| out@ == #[trigger] id_text(millis as nat, counter as nat),
{
    let millis: u64 = now_ms();
    let out = id_at(millis, counter);
    assert(out@ == id_text(millis as nat, counter as nat));
    out
}

// ---------------------------------------------------------------------------------------------
// Laws

proof fn lemma_line_keys()
    ensures
        "header"@ != "message"@,
        "header"@ != "usage"@,
        "header"@ != "note"@,
        "message"@ != "usage"@,
        "message"@ != "note"@,
        "usage"@ != "note"@,
{
    reveal_strlit("header");
    reveal_strlit("message");
    reveal_strlit("usage");
    reveal_strlit("note");
    assert("header"@.len() == 6 && "message"@.len() == 7 && "usage"@.len() == 5 && "note"@.len()
        == 4);
}

proof fn lemma_header_round_trips(header: HeaderView)
    ensures
        line_of(header.json()) == Some(LineView::Header(header)),
        plain(header.json(), 4),
{
    reveal_strlit("kind");
    reveal_strlit("id");
    reveal_strlit("model");
    reveal_strlit("cwd");
    reveal_strlit("started_at_ms");
    reveal_strlit("branched_from");
    lemma_line_keys();
    let front = seq![
        ("kind"@, JsonView::Text("header"@)),
        ("id"@, JsonView::Text(header.id)),
        ("model"@, JsonView::Text(header.model)),
        ("cwd"@, JsonView::Text(header.cwd)),
        ("started_at_ms"@, JsonView::Int(header.started_at_ms as int)),
    ];
    let back = text_entry("branched_from"@, header.branched_from);
    assert("kind"@.len() == 4 && "id"@.len() == 2 && "model"@.len() == 5 && "cwd"@.len() == 3);
    assert("started_at_ms"@.len() == 13 && "branched_from"@.len() == 13);
    assert("started_at_ms"@[0] == 's' && "branched_from"@[0] == 'b');
    reveal_with_fuel(JsonView::position, 7);
    let value = JsonView::Object(front);
    assert(front[0].0 == "kind"@ && front[1].0 == "id"@ && front[2].0 == "model"@ && front[3].0
        == "cwd"@ && front[4].0 == "started_at_ms"@);
    assert(value.get("kind"@) == Some(JsonView::Text("header"@)));
    assert(value.get("id"@) == Some(JsonView::Text(header.id)));
    assert(value.get("model"@) == Some(JsonView::Text(header.model)));
    assert(value.get("cwd"@) == Some(JsonView::Text(header.cwd)));
    assert(value.get("started_at_ms"@) == Some(JsonView::Int(header.started_at_ms as int)));
    assert(value.get("branched_from"@) is None);
    lemma_get_add(front, back, "kind"@);
    lemma_get_add(front, back, "id"@);
    lemma_get_add(front, back, "model"@);
    lemma_get_add(front, back, "cwd"@);
    lemma_get_add(front, back, "started_at_ms"@);
    lemma_get_add(front, back, "branched_from"@);
    lemma_text_entry("branched_from"@, header.branched_from, "branched_from"@);
    lemma_distinct_add(front, back);
    let entries = front + back;
    assert forall|i: int| 0 <= i < entries.len() implies plain((#[trigger] entries[i]).1, 3) by {
        assert(entries[i].1 is Text || entries[i].1 is Int);
    }
}

proof fn lemma_usage_round_trips(usage: TurnUsage)
    ensures
        line_of(usage_json(usage)) == Some(LineView::Usage(usage)),
        plain(usage_json(usage), 4),
{
    reveal_strlit("kind");
    reveal_strlit("prompt_tokens");
    reveal_strlit("cache_hit_tokens");
    reveal_strlit("cache_miss_tokens");
    reveal_strlit("completion_tokens");
    reveal_strlit("reasoning_tokens");
    lemma_line_keys();
    let entries = usage_json(usage)->Object_0;
    assert("kind"@.len() == 4 && "prompt_tokens"@.len() == 13 && "cache_hit_tokens"@.len() == 16);
    assert("cache_miss_tokens"@.len() == 17 && "completion_tokens"@.len() == 17
        && "reasoning_tokens"@.len() == 16);
    assert("cache_miss_tokens"@[1] == 'a' && "completion_tokens"@[1] == 'o');
    assert("cache_hit_tokens"@[0] == 'c' && "reasoning_tokens"@[0] == 'r');
    assert(entries[0].0 == "kind"@ && entries[1].0 == "prompt_tokens"@ && entries[2].0
        == "cache_hit_tokens"@ && entries[3].0 == "cache_miss_tokens"@ && entries[4].0
        == "completion_tokens"@ && entries[5].0 == "reasoning_tokens"@);
    reveal_with_fuel(JsonView::position, 7);
    let value = usage_json(usage);
    assert(value.get("kind"@) == Some(JsonView::Text("usage"@)));
    assert(value.get("prompt_tokens"@) == Some(JsonView::Int(usage.prompt_tokens as int)));
    assert(value.get("cache_hit_tokens"@) == Some(JsonView::Int(usage.cache_hit_tokens as int)));
    assert(value.get("cache_miss_tokens"@) == Some(JsonView::Int(usage.cache_miss_tokens as int)));
    assert(value.get("completion_tokens"@) == Some(JsonView::Int(usage.completion_tokens as int)));
    assert(value.get("reasoning_tokens"@) == Some(JsonView::Int(usage.reasoning_tokens as int)));
    assert forall|i: int| 0 <= i < entries.len() implies plain((#[trigger] entries[i]).1, 3) by {
        assert(entries[i].1 is Text || entries[i].1 is Int);
    }
}

proof fn lemma_note_round_trips(text: Seq<char>)
    ensures
        line_of(note_json(text)) == Some(LineView::Note { text }),
        plain(note_json(text), 4),
{
    reveal_strlit("kind");
    reveal_strlit("text");
    lemma_line_keys();
    let entries = note_json(text)->Object_0;
    assert("kind"@[0] == 'k' && "text"@[0] == 't');
    assert(entries[0].0 == "kind"@ && entries[1].0 == "text"@);
    reveal_with_fuel(JsonView::position, 3);
    let value = note_json(text);
    assert(value.get("kind"@) == Some(JsonView::Text("note"@)));
    assert(value.get("text"@) == Some(JsonView::Text(text)));
    assert forall|i: int| 0 <= i < entries.len() implies plain((#[trigger] entries[i]).1, 3) by {
        assert(entries[i].1 is Text);
    }
}

/// A line survives being written down: reading its JSON gives the line back, whatever it holds.
pub proof fn law_a_line_round_trips(line: LineView)
    ensures
        line_of(line.json()) == Some(line),
        plain(line.json(), 4),
        line.json() is Object,
{
    match line {
        LineView::Header(header) => lemma_header_round_trips(header),
        LineView::Message(message) => {
            lemma_line_keys();
            let front = kind_entry("message"@);
            assert(front[0] == ("kind"@, JsonView::Text("message"@)));
            law_a_message_round_trips(message, front);
            lemma_get_add(front, message.json()->Object_0, "kind"@);
            lemma_get_one("kind"@, JsonView::Text("message"@), "kind"@);
        },
        LineView::Usage(usage) => lemma_usage_round_trips(usage),
        LineView::Note { text } => lemma_note_round_trips(text),
    }
}

/// What a file holds after texts were appended to it, one after the other.
pub open spec fn appended(texts: Seq<Seq<char>>) -> Seq<char>
    decreases texts.len(),
{
    if texts.len() == 0 {
        Seq::empty()
    } else {
        texts[0] + appended(texts.drop_first())
    }
}

/// The rows of lines that were written, each without its end.
spec fn bodies(texts: Seq<Seq<char>>) -> Seq<Seq<char>> {
    Seq::new(texts.len(), |i: int| texts[i].drop_last())
}

/// What stands behind the last complete line.
spec fn torn_row(torn: Seq<char>) -> Seq<Seq<char>> {
    if torn.len() == 0 {
        Seq::empty()
    } else {
        seq![torn]
    }
}

proof fn lemma_rows(written_lines: Seq<LineView>, texts: Seq<Seq<char>>, torn: Seq<char>)
    requires
        written_lines.len() == texts.len(),
        forall|i: int| 0 <= i < texts.len() ==> written(written_lines[i], #[trigger] texts[i]),
        !torn.contains('\n'),
    ensures
        lines(appended(texts) + torn) == bodies(texts) + torn_row(torn),
    decreases texts.len(),
{
    if texts.len() == 0 {
        lemma_lines_last(torn);
        assert(appended(texts) + torn =~= torn);
        assert(bodies(texts) + torn_row(torn) =~= torn_row(torn));
    } else {
        let rest = texts.drop_first();
        let body = texts[0].drop_last();
        assert(written(written_lines[0], texts[0]));
        assert forall|i: int| 0 <= i < rest.len() implies written(
            written_lines.drop_first()[i],
            #[trigger] rest[i],
        ) by {
            assert(rest[i] == texts[i + 1]);
        }
        lemma_rows(written_lines.drop_first(), rest, torn);
        assert(appended(texts) + torn =~= body.push('\n') + (appended(rest) + torn));
        lemma_lines_first(body, appended(rest) + torn);
        assert(crate::text::chop_return(body) == body) by {
            if body.len() > 0 {
                assert(body.contains(body.last()));
            }
        }
        assert(bodies(texts) =~= seq![body] + bodies(rest));
        assert(seq![body] + (bodies(rest) + torn_row(torn)) =~= bodies(texts) + torn_row(torn));
    }
}

/// What was appended is read back: a file that holds the texts of lines, and behind them at most a
/// piece of a line that a crash cut off, gives exactly those lines in their order, says where the
/// piece begins, and has the header it starts with.
pub proof fn law_a_session_is_read_back(
    written_lines: Seq<LineView>,
    texts: Seq<Seq<char>>,
    torn: Seq<char>,
)
    requires
        written_lines.len() == texts.len(),
        forall|i: int| 0 <= i < texts.len() ==> written(written_lines[i], #[trigger] texts[i]),
        !torn.contains('\n'),
        torn.len() > 0 ==> !blank(torn) && line_in(torn) is None,
    ensures
        recovered(lines(appended(texts) + torn)) == (RecoveredView {
            header: if written_lines.len() > 0 {
                match written_lines[0] {
                    LineView::Header(header) => Some(header),
                    _ => None,
                }
            } else {
                None
            },
            lines: written_lines,
            stopped_at: if torn.len() == 0 {
                None
            } else {
                Some(written_lines.len() as int)
            },
        }),
{
    lemma_rows(written_lines, texts, torn);
    let raws = bodies(texts) + torn_row(torn);
    lemma_read_written(written_lines, texts, torn, 0);
    assert(written_lines.skip(0) =~= written_lines);
    if texts.len() > 0 {
        assert(written(written_lines[0], texts[0]));
        assert(raws[0] == texts[0].drop_last());
    }
}

proof fn lemma_read_written(
    written_lines: Seq<LineView>,
    texts: Seq<Seq<char>>,
    torn: Seq<char>,
    k: int,
)
    requires
        0 <= k <= texts.len(),
        written_lines.len() == texts.len(),
        forall|i: int| 0 <= i < texts.len() ==> written(written_lines[i], #[trigger] texts[i]),
        torn.len() > 0 ==> !blank(torn) && line_in(torn) is None,
    ensures
        ({
            let raws = bodies(texts) + torn_row(torn);
            &&& read_from(raws, k).0 == written_lines.skip(k)
            &&& read_from(raws, k).1 == if torn.len() == 0 {
                None
            } else {
                Some(texts.len() as int)
            }
        }),
    decreases texts.len() - k,
{
    let raws = bodies(texts) + torn_row(torn);
    if k < texts.len() {
        assert(written(written_lines[k], texts[k]));
        assert(raws[k] == texts[k].drop_last());
        lemma_read_written(written_lines, texts, torn, k + 1);
        assert(seq![written_lines[k]] + written_lines.skip(k + 1) =~= written_lines.skip(k));
    } else {
        assert(written_lines.skip(k) =~= Seq::<LineView>::empty());
        if torn.len() > 0 {
            assert(raws[k] == torn);
        }
    }
}

/// Reading stops at the first row that cannot be understood: nothing behind it is read, whatever it
/// is, and the file does not count as complete.
pub proof fn law_nothing_behind_a_bad_row_is_read(
    before: Seq<Seq<char>>,
    bad: Seq<char>,
    behind: Seq<Seq<char>>,
)
    requires
        !blank(bad),
        line_in(bad) is None,
    ensures
        recovered(before.push(bad) + behind) == recovered(before.push(bad)),
        recovered(before.push(bad)).stopped_at is Some,
        0 <= recovered(before.push(bad)).stopped_at->0 <= before.len(),
{
    lemma_stops(before, bad, behind, 0);
    assert((before.push(bad) + behind)[0] == before.push(bad)[0]);
}

proof fn lemma_stops(before: Seq<Seq<char>>, bad: Seq<char>, behind: Seq<Seq<char>>, from: int)
    requires
        !blank(bad),
        line_in(bad) is None,
        0 <= from <= before.len(),
    ensures
        read_from(before.push(bad) + behind, from) == read_from(before.push(bad), from),
        read_from(before.push(bad), from).1 is Some,
        from <= read_from(before.push(bad), from).1->0 <= before.len(),
    decreases before.len() - from,
{
    let whole = before.push(bad) + behind;
    assert(whole[from] == before.push(bad)[from]);
    if from < before.len() {
        lemma_stops(before, bad, behind, from + 1);
    } else {
        assert(before.push(bad)[from] == bad);
    }
}

/// Being newer is a strict order: nothing is newer than itself, and what is newer than something
/// newer is newer.
pub proof fn law_being_newer_is_an_order(a: Seq<char>, b: Seq<char>, c: Seq<char>)
    ensures
        !newer(a, a),
        newer(a, b) && newer(b, c) ==> newer(a, c),
{
    lemma_not_after_itself(a, 0);
    if newer(a, b) && newer(b, c) && id_parts(a) is None && id_parts(b) is None && id_parts(
        c,
    ) is None {
        lemma_after_transitive(a, b, c, 0);
    }
}

proof fn lemma_place(list: Seq<SummaryView>, one: SummaryView, from: int)
    requires
        0 <= from <= list.len(),
    ensures
        from <= place(list, one, from) <= list.len(),
        forall|i: int|
            from <= i < place(list, one, from) ==> !newer(
                one.header.id,
                (#[trigger] list[i]).header.id,
            ),
        place(list, one, from) < list.len() ==> newer(
            one.header.id,
            list[place(list, one, from)].header.id,
        ),
    decreases list.len() - from,
{
    if from < list.len() && !newer(one.header.id, list[from].header.id) {
        lemma_place(list, one, from + 1);
    }
}

/// A list of sessions is newest first: nothing stands in front of something newer.
pub proof fn law_sessions_are_listed_newest_first(sessions: Seq<SummaryView>)
    ensures
        ({
            let listed = newest_first(sessions);
            forall|i: int, j: int|
                0 <= i < j < listed.len() ==> !newer(
                    (#[trigger] listed[j]).header.id,
                    (#[trigger] listed[i]).header.id,
                )
        }),
    decreases sessions.len(),
{
    if sessions.len() > 0 {
        let before = newest_first(sessions.drop_last());
        let one = sessions.last();
        law_sessions_are_listed_newest_first(sessions.drop_last());
        lemma_place(before, one, 0);
        let k = place(before, one, 0);
        let listed = before.insert(k, one);
        assert forall|i: int, j: int| 0 <= i < j < listed.len() implies !newer(
            (#[trigger] listed[j]).header.id,
            (#[trigger] listed[i]).header.id,
        ) by {
            if j < k {
                assert(listed[i] == before[i] && listed[j] == before[j]);
            } else if j == k {
                assert(listed[i] == before[i]);
            } else {
                assert(listed[j] == before[j - 1]);
                if i == k {
                    // Something newer than the new one would be newer than what it stands before.
                    law_being_newer_is_an_order(
                        before[j - 1].header.id,
                        one.header.id,
                        before[k].header.id,
                    );
                    law_being_newer_is_an_order(
                        before[k].header.id,
                        before[k].header.id,
                        before[k].header.id,
                    );
                    if j - 1 > k {
                        assert(!newer(before[j - 1].header.id, before[k].header.id));
                    }
                } else if i < k {
                    assert(listed[i] == before[i]);
                } else {
                    assert(listed[i] == before[i - 1]);
                }
            }
        }
    }
}

/// Listing neither loses a session nor makes one up.
pub proof fn law_listing_keeps_every_session(sessions: Seq<SummaryView>)
    ensures
        newest_first(sessions).to_multiset() == sessions.to_multiset(),
    decreases sessions.len(),
{
    broadcast use vstd::seq_lib::group_to_multiset_ensures;

    if sessions.len() > 0 {
        let front = sessions.drop_last();
        let before = newest_first(front);
        let one = sessions.last();
        law_listing_keeps_every_session(front);
        lemma_place(before, one, 0);
        vstd::seq_lib::to_multiset_insert(before, place(before, one, 0), one);
        assert(front.push(one) =~= sessions);
    } else {
        assert(sessions =~= Seq::<SummaryView>::empty());
    }
}

/// An id says when it was made and with which counter, so ids sort by time and then by counter, and
/// two ids with different counters differ.
pub proof fn law_ids_sort_by_time(millis: u64, counter: u64, other_millis: u64, other_counter: u64)
    ensures
        id_parts(id_text(millis as nat, counter as nat)) == Some((millis as nat, counter as nat)),
        newer(
            id_text(millis as nat, counter as nat),
            id_text(other_millis as nat, other_counter as nat),
        ) == (millis > other_millis || (millis == other_millis && counter > other_counter)),
        counter != other_counter ==> id_text(millis as nat, counter as nat) != id_text(
            other_millis as nat,
            other_counter as nat,
        ),
{
    lemma_id_parts(millis as nat, counter as nat);
    lemma_id_parts(other_millis as nat, other_counter as nat);
}

proof fn lemma_id_parts(millis: nat, counter: nat)
    requires
        millis <= u64::MAX,
        counter <= u64::MAX,
    ensures
        id_parts(id_text(millis, counter)) == Some((millis, counter)),
{
    let id = id_text(millis, counter);
    let k = decimal(millis).len() as int;
    lemma_decimal_value(millis);
    lemma_decimal_value(counter);
    assert forall|i: int| 0 <= i < k implies id[i] != '-' by {
        assert(id[i] == decimal(millis)[i]);
    }
    assert(id[k] == '-');
    lemma_upto_is(id, '-', k);
    assert(id.take(k) =~= decimal(millis));
    assert(id.skip(k + 1) =~= decimal(counter));
    assert('0' <= decimal(millis)[0]);
    assert('0' <= decimal(counter)[0]);
}

/// The most recent session of a directory is offered: it was held there, and no session held there
/// stands before it in the list.
pub proof fn law_only_this_directory_is_resumed(listed: Seq<SummaryView>, cwd: Seq<char>)
    ensures
        match held_in(listed, cwd, 0) {
            Some(found) => exists|i: int|
                0 <= i < listed.len() && #[trigger] listed[i] == found && path_view(
                    found.header.cwd,
                ) == path_view(cwd) && forall|j: int|
                    0 <= j < i ==> path_view((#[trigger] listed[j]).header.cwd) != path_view(cwd),
            None => forall|j: int|
                0 <= j < listed.len() ==> path_view((#[trigger] listed[j]).header.cwd) != path_view(
                    cwd,
                ),
        },
{
    lemma_held_in(listed, cwd, 0);
}

proof fn lemma_held_in(listed: Seq<SummaryView>, cwd: Seq<char>, from: int)
    requires
        0 <= from <= listed.len(),
        forall|j: int|
            0 <= j < from ==> path_view((#[trigger] listed[j]).header.cwd) != path_view(cwd),
    ensures
        match held_in(listed, cwd, from) {
            Some(found) => exists|i: int|
                0 <= i < listed.len() && #[trigger] listed[i] == found && path_view(
                    found.header.cwd,
                ) == path_view(cwd) && forall|j: int|
                    0 <= j < i ==> path_view((#[trigger] listed[j]).header.cwd) != path_view(cwd),
            None => forall|j: int|
                0 <= j < listed.len() ==> path_view((#[trigger] listed[j]).header.cwd) != path_view(
                    cwd,
                ),
        },
    decreases listed.len() - from,
{
    if from < listed.len() && path_view(listed[from].header.cwd) != path_view(cwd) {
        lemma_held_in(listed, cwd, from + 1);
    }
}

/// The conversation of a session is that of its parts together, in their order: a message line is
/// that message, and a line of any other kind adds nothing and takes nothing away. The costs are
/// told apart in the same way.
pub proof fn law_lines_are_told_apart_one_by_one(
    a: Seq<LineView>,
    b: Seq<LineView>,
    line: LineView,
)
    ensures
        messages_in(a + b) == messages_in(a) + messages_in(b),
        usages_in(a + b) == usages_in(a) + usages_in(b),
        messages_in(seq![line]) == (match line {
            LineView::Message(message) => seq![message],
            _ => Seq::empty(),
        }),
        usages_in(seq![line]) == (match line {
            LineView::Usage(usage) => seq![usage],
            _ => Seq::empty(),
        }),
        messages_in(Seq::empty()).len() == 0,
        usages_in(Seq::empty()).len() == 0,
    decreases b.len(),
{
    if b.len() == 0 {
        assert(a + b =~= a);
        assert(messages_in(a) + messages_in(b) =~= messages_in(a));
        assert(usages_in(a) + usages_in(b) =~= usages_in(a));
    } else {
        law_lines_are_told_apart_one_by_one(a, b.drop_last(), line);
        assert((a + b).drop_last() =~= a + b.drop_last());
        assert((a + b).last() == b.last());
        assert(messages_in(a + b) =~= messages_in(a) + messages_in(b));
        assert(usages_in(a + b) =~= usages_in(a) + usages_in(b));
    }
    let one = seq![line];
    assert(one.drop_last() =~= Seq::<LineView>::empty());
    assert(one.last() == line);
    reveal_with_fuel(messages_in, 2);
    reveal_with_fuel(usages_in, 2);
    assert(messages_in(one) =~= (match line {
        LineView::Message(message) => seq![message],
        _ => Seq::empty(),
    }));
    assert(usages_in(one) =~= (match line {
        LineView::Usage(usage) => seq![usage],
        _ => Seq::empty(),
    }));
}

/// Whether lines hold these messages at these places, in order, and no message anywhere else.
pub open spec fn messages_stand_at(
    lines: Seq<LineView>,
    at: Seq<int>,
    messages: Seq<ChatMessageView>,
) -> bool {
    &&& at.len() == messages.len()
    &&& forall|i: int, j: int| 0 <= i < j < at.len() ==> #[trigger] at[i] < #[trigger] at[j]
    &&& forall|i: int|
        0 <= i < at.len() ==> 0 <= #[trigger] at[i] < lines.len() && lines[at[i]]
            == LineView::Message(messages[i])
    &&& forall|k: int|
        0 <= k < lines.len() && (#[trigger] lines[k]) is Message ==> at.contains(k)
}

proof fn lemma_messages_stand(
    lines: Seq<LineView>,
    at: Seq<int>,
    messages: Seq<ChatMessageView>,
)
    requires
        messages_stand_at(lines, at, messages),
    ensures
        messages_in(lines) == messages,
    decreases lines.len(),
{
    if lines.len() == 0 {
        if at.len() > 0 {
            assert(0 <= at[0] < lines.len());
        }
        assert(messages =~= Seq::<ChatMessageView>::empty());
    } else {
        let last = lines.len() - 1;
        let front = lines.drop_last();
        if lines[last] is Message {
            let i = choose|i: int| 0 <= i < at.len() && at[i] == last;
            if i < at.len() - 1 {
                assert(at[i] < at[at.len() - 1]);
            }
            let fewer = at.drop_last();
            assert forall|k: int| 0 <= k < front.len() && (#[trigger] front[k]) is Message implies
                fewer.contains(k) by {
                assert(lines[k] is Message);
                let j = choose|j: int| 0 <= j < at.len() && at[j] == k;
                assert(fewer[j] == k);
            }
            assert forall|j: int| 0 <= j < fewer.len() implies 0 <= #[trigger] fewer[j]
                < front.len() && front[fewer[j]] == LineView::Message(
                messages.drop_last()[j],
            ) by {
                assert(at[j] == fewer[j]);
                assert(at[j] < at[at.len() - 1]);
            }
            lemma_messages_stand(front, fewer, messages.drop_last());
            assert(messages.drop_last().push(messages.last()) =~= messages);
        } else {
            assert forall|j: int| 0 <= j < at.len() implies 0 <= #[trigger] at[j] < front.len()
                && front[at[j]] == LineView::Message(messages[j]) by {
                assert(lines[at[j]] is Message);
            }
            assert forall|k: int| 0 <= k < front.len() && (#[trigger] front[k]) is Message implies
                at.contains(k) by {
                assert(lines[k] is Message);
            }
            lemma_messages_stand(front, at, messages);
        }
    }
}

/// A conversation that was written down is read back: whatever header, costs and notes stand between
/// its messages, and whatever a crash cut off behind them, exactly those messages come back, in
/// their order.
pub proof fn law_a_conversation_is_read_back(
    written_lines: Seq<LineView>,
    texts: Seq<Seq<char>>,
    torn: Seq<char>,
    at: Seq<int>,
    messages: Seq<ChatMessageView>,
)
    requires
        written_lines.len() == texts.len(),
        forall|i: int| 0 <= i < texts.len() ==> written(written_lines[i], #[trigger] texts[i]),
        !torn.contains('\n'),
        torn.len() > 0 ==> !blank(torn) && line_in(torn) is None,
        messages_stand_at(written_lines, at, messages),
    ensures
        messages_in(recovered(lines(appended(texts) + torn)).lines) == messages,
{
    law_a_session_is_read_back(written_lines, texts, torn);
    lemma_messages_stand(written_lines, at, messages);
}

proof fn lemma_read_shifted(row: Seq<char>, rest: Seq<Seq<char>>, from: int)
    requires
        0 <= from <= rest.len(),
    ensures
        read_from(seq![row] + rest, from + 1).0 == read_from(rest, from).0,
        read_from(seq![row] + rest, from + 1).1 == (match read_from(rest, from).1 {
            Some(at) => Some(at + 1),
            None => None,
        }),
    decreases rest.len() - from,
{
    if from < rest.len() {
        assert((seq![row] + rest)[from + 1] == rest[from]);
        lemma_read_shifted(row, rest, from + 1);
    }
}

/// Rows are read one by one: a row that can be understood gives its line in front of what the rest
/// gives, a blank one gives nothing, and one that cannot be understood ends the reading where it
/// stands. A header is the file's only in its first row.
pub proof fn law_rows_are_read_one_by_one(row: Seq<char>, rest: Seq<Seq<char>>)
    ensures
        ({
            let all = recovered(seq![row] + rest);
            let behind = recovered(rest);
            &&& blank(row) ==> all.header is None && all.lines == behind.lines
            &&& !blank(row) ==> match line_in(row) {
                Some(line) => {
                    &&& all.lines == seq![line] + behind.lines
                    &&& line matches LineView::Header(header) ==> all.header == Some(header)
                    &&& !(line is Header) ==> all.header is None
                },
                None => all.lines.len() == 0 && all.stopped_at == Some(0int) && all.header is None,
            }
            &&& blank(row) || line_in(row) is Some ==> match behind.stopped_at {
                Some(at) => all.stopped_at == Some(at + 1),
                None => all.stopped_at is None,
            }
        }),
        recovered(Seq::empty()).lines.len() == 0,
        recovered(Seq::empty()).header is None,
        recovered(Seq::empty()).stopped_at is None,
{
    let raws = seq![row] + rest;
    assert(raws[0] == row);
    lemma_read_shifted(row, rest, 0);
}

/// A branch begins with the header of the session it came from, under its own id and naming that
/// session, and goes on with the first of that session's other lines, as many as are kept.
pub proof fn law_a_branch_is_the_beginning_of_its_session(
    header: HeaderView,
    lines: Seq<LineView>,
    keep: int,
    id: Seq<char>,
)
    requires
        0 <= keep,
    ensures
        ({
            let branch = branched(header, lines, keep, id);
            let others = without_headers(lines);
            &&& branch[0] matches LineView::Header(own) && own.id == id && own.branched_from == Some(
                header.id,
            ) && own.model == header.model && own.cwd == header.cwd && own.started_at_ms
                == header.started_at_ms
            &&& branch.len() == 1 + if keep < others.len() {
                keep
            } else {
                others.len() as int
            }
            &&& forall|i: int| 1 <= i < branch.len() ==> #[trigger] branch[i] == others[i - 1]
        }),
{
}

/// Leaving the headers out leaves every other line in, in its order.
pub proof fn law_only_headers_are_left_out(a: Seq<LineView>, b: Seq<LineView>, line: LineView)
    ensures
        without_headers(a + b) == without_headers(a) + without_headers(b),
        without_headers(seq![line]) == if line is Header {
            Seq::empty()
        } else {
            seq![line]
        },
    decreases b.len(),
{
    if b.len() == 0 {
        assert(a + b =~= a);
        assert(without_headers(a) + without_headers(b) =~= without_headers(a));
    } else {
        law_only_headers_are_left_out(a, b.drop_last(), line);
        assert((a + b).drop_last() =~= a + b.drop_last());
        assert((a + b).last() == b.last());
        assert(without_headers(a + b) =~= without_headers(a) + without_headers(b));
    }
    let one = seq![line];
    assert(one.drop_last() =~= Seq::<LineView>::empty());
    assert(one.last() == line);
    reveal_with_fuel(without_headers, 2);
    assert(without_headers(one) =~= if line is Header {
        Seq::empty()
    } else {
        one
    });
}

proof fn lemma_first_row(blanks: Seq<Seq<char>>, row: Seq<char>, rest: Seq<Seq<char>>, from: int)
    requires
        0 <= from <= blanks.len(),
        forall|i: int| 0 <= i < blanks.len() ==> blank(#[trigger] blanks[i]),
        !blank(row),
    ensures
        first_row(blanks.push(row) + rest, from) == Some(row),
        first_row(blanks, from) is None,
    decreases blanks.len() - from,
{
    let raws = blanks.push(row) + rest;
    if from < blanks.len() {
        assert(raws[from] == blanks[from]);
        lemma_first_row(blanks, row, rest, from + 1);
    } else {
        assert(raws[from] == row);
    }
}

/// A file is a session exactly when the first row that carries anything is a header: that header is
/// the session's, and what stands behind it does not matter.
pub proof fn law_the_first_row_decides(
    path: Seq<char>,
    text: Seq<char>,
    blanks: Seq<Seq<char>>,
    row: Seq<char>,
    rest: Seq<Seq<char>>,
)
    requires
        lines(text) == blanks.push(row) + rest,
        forall|i: int| 0 <= i < blanks.len() ==> blank(#[trigger] blanks[i]),
        !blank(row),
    ensures
        line_in(row) matches Some(LineView::Header(header)) ==> summary_of(path, text) == Some(
            SummaryView { path, header },
        ),
        !(line_in(row) matches Some(LineView::Header(_))) ==> summary_of(path, text) is None,
{
    lemma_first_row(blanks, row, rest, 0);
}

/// Every file that is a session is found, in the order of the files, and one that is not hides none.
pub proof fn law_a_bad_file_hides_no_session(
    a: Seq<(Seq<char>, Seq<char>)>,
    b: Seq<(Seq<char>, Seq<char>)>,
    path: Seq<char>,
    text: Seq<char>,
)
    ensures
        sessions_in(a + b) == sessions_in(a) + sessions_in(b),
        sessions_in(seq![(path, text)]) == (match summary_of(path, text) {
            Some(one) => seq![one],
            None => Seq::empty(),
        }),
        summary_of(path, text) matches Some(one) ==> one.path == path,
    decreases b.len(),
{
    if b.len() == 0 {
        assert(a + b =~= a);
        assert(sessions_in(a) + sessions_in(b) =~= sessions_in(a));
    } else {
        law_a_bad_file_hides_no_session(a, b.drop_last(), path, text);
        assert((a + b).drop_last() =~= a + b.drop_last());
        assert((a + b).last() == b.last());
        assert(sessions_in(a + b) =~= sessions_in(a) + sessions_in(b));
    }
    let one = seq![(path, text)];
    assert(one.drop_last() =~= Seq::<(Seq<char>, Seq<char>)>::empty());
    assert(one.last() == (path, text));
    reveal_with_fuel(sessions_in, 2);
    assert(sessions_in(one) =~= (match summary_of(path, text) {
        Some(one) => seq![one],
        None => Seq::empty(),
    }));
}

proof fn lemma_place_last(list: Seq<SummaryView>, one: SummaryView, from: int)
    requires
        0 <= from <= list.len(),
        forall|i: int|
            0 <= i < list.len() ==> !newer(one.header.id, (#[trigger] list[i]).header.id),
    ensures
        place(list, one, from) == list.len(),
    decreases list.len() - from,
{
    if from < list.len() {
        lemma_place_last(list, one, from + 1);
    }
}

/// What is already newest first is listed as it is: sessions of which neither is newer keep their
/// order.
pub proof fn law_listing_moves_nothing_without_need(sessions: Seq<SummaryView>)
    requires
        forall|i: int, j: int|
            0 <= i < j < sessions.len() ==> !newer(
                (#[trigger] sessions[j]).header.id,
                (#[trigger] sessions[i]).header.id,
            ),
    ensures
        newest_first(sessions) == sessions,
    decreases sessions.len(),
{
    if sessions.len() > 0 {
        let front = sessions.drop_last();
        assert forall|i: int, j: int| 0 <= i < j < front.len() implies !newer(
            (#[trigger] front[j]).header.id,
            (#[trigger] front[i]).header.id,
        ) by {
            assert(front[i] == sessions[i] && front[j] == sessions[j]);
        }
        law_listing_moves_nothing_without_need(front);
        let one = sessions.last();
        assert forall|i: int| 0 <= i < front.len() implies !newer(
            one.header.id,
            (#[trigger] front[i]).header.id,
        ) by {
            assert(front[i] == sessions[i]);
            assert(one == sessions[sessions.len() - 1]);
        }
        lemma_place_last(front, one, 0);
        assert(front.insert(front.len() as int, one) =~= sessions);
    }
}

/// An id that says no time is older than every one that does; of two such the one whose text comes
/// later is the newer.
pub proof fn law_an_id_without_a_time_is_older(a: Seq<char>, b: Seq<char>)
    ensures
        id_parts(a) is Some && id_parts(b) is None ==> newer(a, b) && !newer(b, a),
        id_parts(a) is None && id_parts(b) is None ==> (newer(a, b) <==> crate::text::comes_later(
            a,
            b,
        )),
{
    crate::text::law_text_is_ordered_by_its_first_difference(a, b);
}

/// A file's name says that it holds a session exactly when something stands before the ending.
pub proof fn law_a_session_file_is_known_by_its_ending(id: Seq<char>, name: Seq<char>)
    ensures
        session_name(id + ".jsonl"@) <==> id.len() > 0,
        session_name(name) ==> exists|stem: Seq<char>|
            stem.len() > 0 && name == #[trigger] (stem + ".jsonl"@),
{
    let whole = id + ".jsonl"@;
    assert(whole.skip(id.len() as int) =~= ".jsonl"@);
    if session_name(name) {
        let stem = name.take(name.len() - ".jsonl"@.len());
        assert(name =~= stem + ".jsonl"@);
    }
}

/// A line says first what it is, and what it holds stands under its own name: the header's id, model,
/// directory, time and origin; each of a turn's five numbers; a note's text. A message line holds,
/// besides, what the message does.
pub proof fn law_a_line_is_written_under_its_keys(line: LineView, key: Seq<char>)
    ensures
        line.json().get("kind"@) == Some(
            JsonView::Text(
                match line {
                    LineView::Header(_) => "header"@,
                    LineView::Message(_) => "message"@,
                    LineView::Usage(_) => "usage"@,
                    LineView::Note { .. } => "note"@,
                },
            ),
        ),
        match line {
            LineView::Header(header) => {
                &&& line.json().get("id"@) == Some(JsonView::Text(header.id))
                &&& line.json().get("model"@) == Some(JsonView::Text(header.model))
                &&& line.json().get("cwd"@) == Some(JsonView::Text(header.cwd))
                &&& line.json().get("started_at_ms"@) == Some(
                    JsonView::Int(header.started_at_ms as int),
                )
                &&& header.branched_from matches Some(from) ==> line.json().get("branched_from"@)
                    == Some(JsonView::Text(from))
                &&& header.branched_from is None ==> line.json().get("branched_from"@) is None
            },
            LineView::Message(message) => key != "kind"@ ==> line.json().get(key)
                == message.json().get(key),
            LineView::Usage(usage) => {
                &&& line.json().get("prompt_tokens"@) == Some(
                    JsonView::Int(usage.prompt_tokens as int),
                )
                &&& line.json().get("cache_hit_tokens"@) == Some(
                    JsonView::Int(usage.cache_hit_tokens as int),
                )
                &&& line.json().get("cache_miss_tokens"@) == Some(
                    JsonView::Int(usage.cache_miss_tokens as int),
                )
                &&& line.json().get("completion_tokens"@) == Some(
                    JsonView::Int(usage.completion_tokens as int),
                )
                &&& line.json().get("reasoning_tokens"@) == Some(
                    JsonView::Int(usage.reasoning_tokens as int),
                )
            },
            LineView::Note { text } => line.json().get("text"@) == Some(JsonView::Text(text)),
        },
{
    reveal_strlit("kind");
    reveal_strlit("id");
    reveal_strlit("model");
    reveal_strlit("cwd");
    reveal_strlit("started_at_ms");
    reveal_strlit("branched_from");
    reveal_strlit("prompt_tokens");
    reveal_strlit("cache_hit_tokens");
    reveal_strlit("cache_miss_tokens");
    reveal_strlit("completion_tokens");
    reveal_strlit("reasoning_tokens");
    reveal_strlit("text");
    assert("kind"@.len() == 4 && "id"@.len() == 2 && "model"@.len() == 5 && "cwd"@.len() == 3);
    assert("started_at_ms"@.len() == 13 && "branched_from"@.len() == 13);
    assert("started_at_ms"@[0] == 's' && "branched_from"@[0] == 'b');
    assert("prompt_tokens"@.len() == 13 && "cache_hit_tokens"@.len() == 16);
    assert("cache_miss_tokens"@.len() == 17 && "completion_tokens"@.len() == 17);
    assert("reasoning_tokens"@.len() == 16 && "text"@.len() == 4);
    assert("cache_hit_tokens"@[0] == 'c' && "reasoning_tokens"@[0] == 'r');
    assert("cache_miss_tokens"@[1] == 'a' && "completion_tokens"@[1] == 'o');
    assert("kind"@[0] == 'k' && "text"@[0] == 't');
    match line {
        LineView::Header(header) => {
            reveal_with_fuel(JsonView::position, 7);
            let entries = header.json()->Object_0;
            assert(entries[0].0 == "kind"@ && entries[1].0 == "id"@ && entries[2].0 == "model"@
                && entries[3].0 == "cwd"@ && entries[4].0 == "started_at_ms"@);
            if header.branched_from is Some {
                assert(entries[5].0 == "branched_from"@);
            }
        },
        LineView::Message(message) => {
            let front = kind_entry("message"@);
            assert(front =~= seq![("kind"@, JsonView::Text("message"@))]);
            lemma_get_add(front, message.json()->Object_0, "kind"@);
            lemma_get_one("kind"@, JsonView::Text("message"@), "kind"@);
            lemma_get_add(front, message.json()->Object_0, key);
            lemma_get_one("kind"@, JsonView::Text("message"@), key);
        },
        LineView::Usage(usage) => {
            reveal_with_fuel(JsonView::position, 7);
            let entries = usage_json(usage)->Object_0;
            assert(entries[0].0 == "kind"@ && entries[1].0 == "prompt_tokens"@ && entries[2].0
                == "cache_hit_tokens"@ && entries[3].0 == "cache_miss_tokens"@ && entries[4].0
                == "completion_tokens"@ && entries[5].0 == "reasoning_tokens"@);
        },
        LineView::Note { text } => {
            reveal_with_fuel(JsonView::position, 3);
            let entries = note_json(text)->Object_0;
            assert(entries[0].0 == "kind"@ && entries[1].0 == "text"@);
        },
    }
}

/// A line that is read is what it says it is, and one that says something else is no line.
pub proof fn law_a_line_is_what_it_says_it_is(value: JsonView)
    requires
        value is Object,
    ensures
        line_of(value) matches Some(line) ==> value.get("kind"@) == Some(
            JsonView::Text(
                match line {
                    LineView::Header(_) => "header"@,
                    LineView::Message(_) => "message"@,
                    LineView::Usage(_) => "usage"@,
                    LineView::Note { .. } => "note"@,
                },
            ),
        ),
        line_of(value) matches Some(LineView::Header(header)) ==> value.get("id"@) == Some(
            JsonView::Text(header.id),
        ) && value.get("model"@) == Some(JsonView::Text(header.model)) && value.get("cwd"@)
            == Some(JsonView::Text(header.cwd)) && value.get("started_at_ms"@) == Some(
            JsonView::Int(header.started_at_ms as int),
        ),
        line_of(value) matches Some(LineView::Usage(usage)) ==> value.get("prompt_tokens"@) == Some(
            JsonView::Int(usage.prompt_tokens as int),
        ) && value.get("cache_hit_tokens"@) == Some(JsonView::Int(usage.cache_hit_tokens as int))
            && value.get("cache_miss_tokens"@) == Some(
            JsonView::Int(usage.cache_miss_tokens as int),
        ) && value.get("completion_tokens"@) == Some(
            JsonView::Int(usage.completion_tokens as int),
        ) && value.get("reasoning_tokens"@) == Some(JsonView::Int(usage.reasoning_tokens as int)),
        line_of(value) matches Some(LineView::Note { text }) ==> value.get("text"@) == Some(
            JsonView::Text(text),
        ),
        line_of(value) matches Some(LineView::Message(message)) ==> crate::message::message_of(
            value,
        ) == Some(message),
{
    lemma_line_keys();
}

/// Whether a whole number that fits stands under a name.
pub open spec fn counted(value: JsonView, name: Seq<char>) -> bool {
    value.get(name) matches Some(JsonView::Int(n)) && 0 <= n <= u64::MAX
}

/// A line is read when it says what it is and has what such a line needs, each of its type, and only
/// then.
pub proof fn law_a_line_needs_what_its_kind_has(value: JsonView, kind: Seq<char>)
    requires
        value is Object,
        value.get("kind"@) == Some(JsonView::Text(kind)),
    ensures
        kind == "header"@ ==> (line_of(value) is Some <==> {
            &&& value.get("id"@) matches Some(JsonView::Text(_))
            &&& value.get("model"@) matches Some(JsonView::Text(_))
            &&& value.get("cwd"@) matches Some(JsonView::Text(_))
            &&& counted(value, "started_at_ms"@)
            &&& value.get("branched_from"@) matches Some(from) ==> from is Text || from is Null
        }),
        kind == "usage"@ ==> (line_of(value) is Some <==> {
            &&& counted(value, "prompt_tokens"@)
            &&& counted(value, "cache_hit_tokens"@)
            &&& counted(value, "cache_miss_tokens"@)
            &&& counted(value, "completion_tokens"@)
            &&& counted(value, "reasoning_tokens"@)
        }),
        kind == "note"@ ==> (line_of(value) is Some <==> value.get("text"@) matches Some(
            JsonView::Text(_),
        )),
        kind == "message"@ ==> (line_of(value) is Some <==> crate::message::message_of(
            value,
        ) is Some),
        kind != "header"@ && kind != "usage"@ && kind != "note"@ && kind != "message"@ ==> line_of(
            value,
        ) is None,
        line_of(value) matches Some(LineView::Header(header)) ==> match value.get("branched_from"@) {
            Some(JsonView::Text(from)) => header.branched_from == Some(from),
            _ => header.branched_from is None,
        },
{
    lemma_line_keys();
}

/// A line can be written as a list of its kind and its fields in their order: what it says is what the
/// object with their names says.
pub proof fn law_a_line_can_be_told_by_its_places(text: JsonView, role: JsonView, content: JsonView)
    ensures
        line_of(JsonView::List(seq![JsonView::Text("note"@), text])) == line_of(
            JsonView::Object(seq![("kind"@, JsonView::Text("note"@)), ("text"@, text)]),
        ),
        line_of(JsonView::List(seq![JsonView::Text("message"@), role, content])) == line_of(
            JsonView::Object(
                seq![
                    ("kind"@, JsonView::Text("message"@)),
                    ("role"@, role),
                    ("content"@, content),
                ],
            ),
        ),
{
    lemma_line_keys();
    let note = JsonView::List(seq![JsonView::Text("note"@), text]);
    assert(note.first() == Some(JsonView::Text("note"@)));
    assert(spelled_out(note)->Object_0 =~= seq![
        ("kind"@, JsonView::Text("note"@)),
        ("text"@, text),
    ]);
    let message = JsonView::List(seq![JsonView::Text("message"@), role, content]);
    assert(message.first() == Some(JsonView::Text("message"@)));
    let fields = line_fields("message"@);
    assert(fields[0] == "kind"@ && fields[1] == "role"@ && fields[2] == "content"@);
    assert(spelled_out(message)->Object_0 =~= seq![
        ("kind"@, JsonView::Text("message"@)),
        ("role"@, role),
        ("content"@, content),
    ]);
}

/// What is said of a file that is no session names the file.
pub proof fn law_a_file_that_is_no_session_is_named(path: Seq<char>)
    ensures
        no_header_text(path) == path + " does not start with a session header"@,
        no_session_text(path) == path + " is not a session file"@,
{
}

/// A session's file stands in the directory of the sessions under its id.
pub proof fn law_a_session_file_is_named_after_its_id(dir: Seq<char>, id: Seq<char>)
    requires
        dir.len() > 0,
        dir.last() != '/',
        id.len() > 0,
        id[0] != '/',
    ensures
        session_path(dir, id) == dir + seq!['/'] + (id + ".jsonl"@),
{
    let name = id + ".jsonl"@;
    assert(name[0] == id[0]);
    crate::paths::law_a_path_below_another(dir, name);
}

/// An id is two numbers with a dash between them: what has no dash, or no number on either side of the
/// first, says no time.
pub proof fn law_an_id_is_two_numbers(id: Seq<char>, a: Seq<char>, b: Seq<char>)
    ensures
        !id.contains('-') ==> id_parts(id) is None,
        !a.contains('-') ==> (id_parts(a + seq!['-'] + b) is Some <==> parse_number(a) is Some
            && parse_number(b) is Some),
        !a.contains('-') ==> (id_parts(a + seq!['-'] + b) matches Some(parts) ==> parse_number(a)
            == Some(parts.0) && parse_number(b) == Some(parts.1)),
{
    if !id.contains('-') {
        lemma_upto_is(id, '-', id.len() as int);
    }
    if !a.contains('-') {
        let whole = a + seq!['-'] + b;
        let k = a.len() as int;
        assert forall|i: int| 0 <= i < k implies whole[i] != '-' by {
            assert(whole[i] == a[i]);
            assert(a.contains(a[i]));
        }
        assert(whole[k] == '-');
        lemma_upto_is(whole, '-', k);
        assert(whole.take(k) =~= a);
        assert(whole.skip(k + 1) =~= b);
    }
}

/// A row holds a line exactly when it is JSON that is one.
pub proof fn law_a_row_holds_the_line_its_json_is(row: Seq<char>, line: LineView)
    ensures
        line_in(row) == Some(line) <==> (json_parse(row) matches Ok(value) && line_of(value) == Some(
            line,
        )),
        json_parse(row) is Err ==> line_in(row) is None,
{
}

} // verus!
