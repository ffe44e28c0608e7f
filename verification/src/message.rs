//! The request side: what one message is, and the one obligation DeepSeek adds to it.
//!
//! The format is OpenAI's chat format with an extension (an assistant turn may carry
//! `reasoning_content` beside `content`) and with an obligation attached to that extension: for
//! the models that produce reasoning, an assistant message that carries tool calls has to send
//! that reasoning *back* with it, or the request is rejected.
//!
//! History does not always have it. A session recorded by an older build, a turn whose reasoning
//! the user asked not to keep, a branch that was compacted: all of them can hold an assistant
//! tool call with no reasoning. [`enforce_reasoning_replay`] fills that hole with a placeholder
//! instead of dropping the turn, because dropping it would lose the tool call the answer depends
//! on.

use vstd::prelude::*;

use crate::json::{
    distinct_keys, entry_views, item_views, lacks, lemma_absent, lemma_distinct_add, lemma_get_add,
    lemma_get_one, lemma_lacks_add, lemma_plain_more, list, maybe_text_at, name_views, named,
    no_entries, object, plain, put, text, text_at, Json, JsonView,
};
use crate::text::{
    begins, begins_with, blank, chars_of, copy, copy_opt, is_blank, lowered, lowered_of, opt_view,
    same, trim, trimmed,
};

verus! {

/// What goes in place of reasoning that was never recorded.
///
/// A constant rather than an empty string: a reader of a session file can tell "this was never
/// recorded" from "the model thought nothing", which is what an empty field of a turn that was just
/// had says.
pub const REASONING_REPLAY_PLACEHOLDER: &'static str = "(reasoning not recorded)";

#[derive(Debug, Clone, Copy, PartialEq, Eq, Structural)]
pub enum Role {
    System,
    User,
    Assistant,
    Tool,
}

/// One tool call, as the API describes it.
#[derive(Debug, Clone, PartialEq)]
pub struct ToolCall {
    pub id: String,
    /// Always `"function"` from this API; carried so a message round-trips byte for byte.
    pub kind: String,
    pub function: ToolCallFunction,
}

#[derive(Debug, Clone, PartialEq)]
pub struct ToolCallFunction {
    pub name: String,
    /// The raw JSON the model produced. Parsing it belongs to the tool, not to the transcript: a
    /// call that is stored unparsed can be replayed even after the tool's schema changed.
    pub arguments: String,
}

#[verifier::ext_equal]
pub struct ToolCallView {
    pub id: Seq<char>,
    pub kind: Seq<char>,
    pub name: Seq<char>,
    pub arguments: Seq<char>,
}

impl View for ToolCall {
    type V = ToolCallView;

    open spec fn view(&self) -> ToolCallView {
        ToolCallView {
            id: self.id@,
            kind: self.kind@,
            name: self.function.name@,
            arguments: self.function.arguments@,
        }
    }
}

/// What each call of a list says.
pub open spec fn call_views(calls: Seq<ToolCall>) -> Seq<ToolCallView> {
    Seq::new(calls.len(), |i: int| calls[i]@)
}

impl ToolCallView {
    /// The call in the shape the API uses.
    pub open spec fn json(self) -> JsonView {
        JsonView::Object(
            seq![
                ("id"@, JsonView::Text(self.id)),
                ("type"@, JsonView::Text(self.kind)),
                (
                    "function"@,
                    JsonView::Object(
                        seq![
                            ("name"@, JsonView::Text(self.name)),
                            ("arguments"@, JsonView::Text(self.arguments)),
                        ],
                    ),
                ),
            ],
        )
    }
}

impl ToolCall {
    pub fn new(id: &str, name: &str, arguments: &str) -> (out: Self)
        ensures
            out@ == (ToolCallView {
                id: id@,
                kind: "function"@,
                name: name@,
                arguments: arguments@,
            }),
    {
        ToolCall {
            id: copy(id),
            kind: copy("function"),
            function: ToolCallFunction { name: copy(name), arguments: copy(arguments) },
        }
    }

    pub fn name(&self) -> (out: &str)
        ensures
            out@ == self@.name,
    {
        self.function.name.as_str()
    }

    pub fn arguments(&self) -> (out: &str)
        ensures
            out@ == self@.arguments,
    {
        self.function.arguments.as_str()
    }

    /// A call that says the same.
    pub fn duplicate(&self) -> (out: ToolCall)
        ensures
            out@ == self@,
    {
        ToolCall {
            id: copy(&self.id),
            kind: copy(&self.kind),
            function: ToolCallFunction {
                name: copy(&self.function.name),
                arguments: copy(&self.function.arguments),
            },
        }
    }

    /// The call in the shape the API uses.
    pub fn to_json(&self) -> (out: Json)
        ensures
            out@ == self@.json(),
    {
        let mut function = no_entries();
        put(&mut function, "name", text(&self.function.name));
        put(&mut function, "arguments", text(&self.function.arguments));
        let ghost inner = entry_views(function@);
        let mut entries = no_entries();
        put(&mut entries, "id", text(&self.id));
        put(&mut entries, "type", text(&self.kind));
        put(&mut entries, "function", object(function));
        assert(inner =~= self@.json()->Object_0[2].1->Object_0);
        assert(entry_views(entries@) =~= self@.json()->Object_0);
        object(entries)
    }
}

/// One message of the conversation.
#[derive(Debug, Clone, PartialEq)]
pub struct ChatMessage {
    pub role: Role,
    pub content: Option<String>,
    /// The model's reasoning, returned with the turn and required back on a turn that carried tool
    /// calls (see [`enforce_reasoning_replay`]).
    pub reasoning_content: Option<String>,
    pub tool_calls: Vec<ToolCall>,
    /// Set on a tool message: which call it answers.
    pub tool_call_id: Option<String>,
}

#[verifier::ext_equal]
pub struct ChatMessageView {
    pub role: Role,
    pub content: Option<Seq<char>>,
    pub reasoning_content: Option<Seq<char>>,
    pub tool_calls: Seq<ToolCallView>,
    pub tool_call_id: Option<Seq<char>>,
}

impl View for ChatMessage {
    type V = ChatMessageView;

    open spec fn view(&self) -> ChatMessageView {
        ChatMessageView {
            role: self.role,
            content: opt_view(self.content),
            reasoning_content: opt_view(self.reasoning_content),
            tool_calls: call_views(self.tool_calls@),
            tool_call_id: opt_view(self.tool_call_id),
        }
    }
}

/// What each message of a list says.
pub open spec fn message_views(messages: Seq<ChatMessage>) -> Seq<ChatMessageView> {
    Seq::new(messages.len(), |i: int| messages[i]@)
}

/// The name the API gives a role.
pub open spec fn role_name(role: Role) -> Seq<char> {
    match role {
        Role::System => "system"@,
        Role::User => "user"@,
        Role::Assistant => "assistant"@,
        Role::Tool => "tool"@,
    }
}

/// An entry for a text that may be missing; a missing one leaves nothing behind.
pub open spec fn text_entry(key: Seq<char>, text: Option<Seq<char>>) -> Seq<
    (Seq<char>, JsonView),
> {
    match text {
        Some(text) => seq![(key, JsonView::Text(text))],
        None => Seq::empty(),
    }
}

impl ChatMessageView {
    /// A message that says something and nothing else.
    pub open spec fn plain(role: Role, content: Seq<char>) -> ChatMessageView {
        ChatMessageView {
            role,
            content: Some(content),
            reasoning_content: None,
            tool_calls: Seq::empty(),
            tool_call_id: None,
        }
    }

    /// Whether this turn asked for tools, which is what makes the reasoning obligatory.
    pub open spec fn asks_for_tools(self) -> bool {
        self.role == Role::Assistant && self.tool_calls.len() > 0
    }

    /// Whether reasoning was recorded: white space is not reasoning.
    pub open spec fn has_reasoning(self) -> bool {
        self.reasoning_content is Some && !blank(self.reasoning_content->0)
    }

    /// Whether this turn owes reasoning it does not have.
    pub open spec fn owes_reasoning(self) -> bool {
        self.asks_for_tools() && !self.has_reasoning()
    }

    /// The turn with the placeholder in, if it owes one.
    pub open spec fn patched(self) -> ChatMessageView {
        if self.owes_reasoning() {
            ChatMessageView {
                reasoning_content: Some(REASONING_REPLAY_PLACEHOLDER@),
                ..self
            }
        } else {
            self
        }
    }

    /// The message in the shape the API uses. What is missing or empty is left out.
    pub open spec fn json(self) -> JsonView {
        JsonView::Object(
            seq![("role"@, JsonView::Text(role_name(self.role)))] + text_entry(
                "content"@,
                self.content,
            ) + text_entry("reasoning_content"@, self.reasoning_content) + (
            if self.tool_calls.len() == 0 {
                Seq::empty()
            } else {
                seq![
                    (
                        "tool_calls"@,
                        JsonView::List(
                            Seq::new(self.tool_calls.len(), |i: int| self.tool_calls[i].json()),
                        ),
                    ),
                ]
            }) + text_entry("tool_call_id"@, self.tool_call_id),
        )
    }
}

fn put_text(entries: &mut Vec<(String, Json)>, key: &str, words: &Option<String>)
    ensures
        entry_views(final(entries)@) == entry_views(old(entries)@) + text_entry(
            key@,
            opt_view(*words),
        ),
{
    match words {
        Some(words) => {
            put(entries, key, text(words));
            assert(entry_views(entries@) =~= entry_views(old(entries)@) + text_entry(
                key@,
                Some(words@),
            ));
        },
        None => {
            assert(entry_views(entries@) + Seq::<(Seq<char>, JsonView)>::empty() =~= entry_views(
                entries@,
            ));
        },
    }
}

impl Role {
    /// The name the API gives it.
    pub fn name(&self) -> (out: &'static str)
        ensures
            out@ == role_name(*self),
    {
        match self {
            Role::System => "system",
            Role::User => "user",
            Role::Assistant => "assistant",
            Role::Tool => "tool",
        }
    }
}

impl ChatMessage {
    fn bare(role: Role, content: &str) -> (out: Self)
        ensures
            out@ == ChatMessageView::plain(role, content@),
    {
        let out = ChatMessage {
            role,
            content: Some(copy(content)),
            reasoning_content: None,
            tool_calls: Vec::new(),
            tool_call_id: None,
        };
        assert(out@.tool_calls =~= Seq::<ToolCallView>::empty());
        out
    }

    pub fn system(content: &str) -> (out: Self)
        ensures
            out@ == ChatMessageView::plain(Role::System, content@),
    {
        ChatMessage::bare(Role::System, content)
    }

    pub fn user(content: &str) -> (out: Self)
        ensures
            out@ == ChatMessageView::plain(Role::User, content@),
    {
        ChatMessage::bare(Role::User, content)
    }

    pub fn assistant(content: &str) -> (out: Self)
        ensures
            out@ == ChatMessageView::plain(Role::Assistant, content@),
    {
        ChatMessage::bare(Role::Assistant, content)
    }

    /// An assistant turn that asked for tools: the kind that owes reasoning back.
    pub fn assistant_with_tools(content: &str, tool_calls: Vec<ToolCall>) -> (out: Self)
        ensures
            out@ == (ChatMessageView {
                tool_calls: call_views(tool_calls@),
                ..ChatMessageView::plain(Role::Assistant, content@)
            }),
    {
        let mut out = ChatMessage::bare(Role::Assistant, content);
        out.tool_calls = tool_calls;
        out
    }

    /// What a tool answered.
    pub fn tool(tool_call_id: &str, content: &str) -> (out: Self)
        ensures
            out@ == (ChatMessageView {
                tool_call_id: Some(tool_call_id@),
                ..ChatMessageView::plain(Role::Tool, content@)
            }),
    {
        let mut out = ChatMessage::bare(Role::Tool, content);
        out.tool_call_id = Some(copy(tool_call_id));
        out
    }

    /// Whether this turn asked for tools, which is what makes the reasoning obligatory.
    pub fn asks_for_tools(&self) -> (out: bool)
        ensures
            out == self@.asks_for_tools(),
    {
        self.role == Role::Assistant && self.tool_calls.len() > 0
    }

    /// Whether the turn carries reasoning that says anything.
    pub fn has_reasoning(&self) -> (out: bool)
        ensures
            out == self@.has_reasoning(),
    {
        match &self.reasoning_content {
            Some(text) => !is_blank(text),
            None => false,
        }
    }

    /// A message that says the same.
    pub fn duplicate(&self) -> (out: ChatMessage)
        ensures
            out@ == self@,
    {
        let mut tool_calls: Vec<ToolCall> = Vec::new();
        let mut i: usize = 0;
        while i < self.tool_calls.len()
            invariant
                i <= self.tool_calls@.len(),
                tool_calls@.len() == i,
                forall|k: int| 0 <= k < i ==> (#[trigger] tool_calls@[k])@ == self.tool_calls@[k]@,
            decreases self.tool_calls@.len() - i,
        {
            tool_calls.push(self.tool_calls[i].duplicate());
            i += 1;
        }
        assert(call_views(tool_calls@) =~= self@.tool_calls);
        ChatMessage {
            role: self.role,
            content: copy_opt(&self.content),
            reasoning_content: copy_opt(&self.reasoning_content),
            tool_calls,
            tool_call_id: copy_opt(&self.tool_call_id),
        }
    }

    /// The message in the shape the API uses. What is missing or empty is left out: `content: null`
    /// and `tool_calls: []` are not what the API expects.
    pub fn to_json(&self) -> (out: Json)
        ensures
            out@ == self@.json(),
    {
        let mut entries = no_entries();
        put(&mut entries, "role", text(self.role.name()));
        put_text(&mut entries, "content", &self.content);
        put_text(&mut entries, "reasoning_content", &self.reasoning_content);
        let ghost before = entry_views(entries@);
        if self.tool_calls.len() > 0 {
            let mut calls: Vec<Json> = Vec::new();
            let mut i: usize = 0;
            while i < self.tool_calls.len()
                invariant
                    i <= self.tool_calls@.len(),
                    calls@.len() == i,
                    forall|k: int|
                        0 <= k < i ==> (#[trigger] calls@[k])@ == self.tool_calls@[k]@.json(),
                decreases self.tool_calls@.len() - i,
            {
                calls.push(self.tool_calls[i].to_json());
                i += 1;
            }
            assert(item_views(calls@) =~= Seq::new(
                self@.tool_calls.len(),
                |i: int| self@.tool_calls[i].json(),
            ));
            put(&mut entries, "tool_calls", list(calls));
        }
        put_text(&mut entries, "tool_call_id", &self.tool_call_id);
        assert(entry_views(entries@) =~= self@.json()->Object_0);
        object(entries)
    }
}

// ---------------------------------------------------------------------------------------------
// Reading messages back

/// The role a name of the API means.
pub open spec fn role_of(name: Seq<char>) -> Option<Role> {
    if name == "system"@ {
        Some(Role::System)
    } else if name == "user"@ {
        Some(Role::User)
    } else if name == "assistant"@ {
        Some(Role::Assistant)
    } else if name == "tool"@ {
        Some(Role::Tool)
    } else {
        None
    }
}

/// The role something means: its name, or an object with nothing but its name for a key.
pub open spec fn role_in(value: JsonView) -> Option<Role> {
    match value {
        JsonView::Text(name) => role_of(name),
        JsonView::Object(entries) => if entries.len() == 1 && says_nothing(entries[0].1) {
            role_of(entries[0].0)
        } else {
            None
        },
        _ => None,
    }
}

pub open spec fn says_nothing(value: JsonView) -> bool {
    match value {
        JsonView::Null => true,
        JsonView::Object(entries) => entries.len() == 0,
        _ => false,
    }
}

/// The fields of a call, in their order.
pub open spec fn call_fields() -> Seq<Seq<char>> {
    seq!["id"@, "type"@, "function"@]
}

pub open spec fn function_fields() -> Seq<Seq<char>> {
    seq!["name"@, "arguments"@]
}

/// The fields of a message, in their order.
pub open spec fn message_fields() -> Seq<Seq<char>> {
    seq!["role"@, "content"@, "reasoning_content"@, "tool_calls"@, "tool_call_id"@]
}

/// A call read from the shape the API uses, or from a list of its fields. A type that is not said is
/// a function.
pub open spec fn call_of(value: JsonView) -> Option<ToolCallView> {
    call_in(named(value, call_fields()))
}

/// A call read from an object.
pub open spec fn call_in(value: JsonView) -> Option<ToolCallView> {
    let kind = match value.get("type"@) {
        None => Some("function"@),
        Some(kind) => kind.text(),
    };
    match (text_at(value, "id"@), kind, value.get("function"@)) {
        (Some(id), Some(kind), Some(function)) => match (
            text_at(named(function, function_fields()), "name"@),
            text_at(named(function, function_fields()), "arguments"@),
        ) {
            (Some(name), Some(arguments)) => Some(ToolCallView { id, kind, name, arguments }),
            _ => None,
        },
        _ => None,
    }
}

/// All of the calls of a list, or none when one cannot be read.
pub open spec fn calls_of(items: Seq<JsonView>) -> Option<Seq<ToolCallView>>
    decreases items.len(),
{
    if items.len() == 0 {
        Some(Seq::empty())
    } else {
        match (calls_of(items.drop_last()), call_of(items.last())) {
            (Some(calls), Some(call)) => Some(calls.push(call)),
            _ => None,
        }
    }
}

/// A message read from the shape the API uses, or from a list of its fields. What is left out is
/// missing; a field of another type than it should have makes it no message.
pub open spec fn message_of(value: JsonView) -> Option<ChatMessageView> {
    message_in(named(value, message_fields()))
}

/// A message read from an object.
pub open spec fn message_in(value: JsonView) -> Option<ChatMessageView> {
    let role = match value.get("role"@) {
        Some(role) => role_in(role),
        None => None,
    };
    let calls = match value.get("tool_calls"@) {
        None => Some(Seq::empty()),
        Some(JsonView::List(items)) => calls_of(items),
        Some(_) => None,
    };
    match (
        role,
        maybe_text_at(value, "content"@),
        maybe_text_at(value, "reasoning_content"@),
        calls,
        maybe_text_at(value, "tool_call_id"@),
    ) {
        (
            Some(role),
            Some(content),
            Some(reasoning_content),
            Some(tool_calls),
            Some(tool_call_id),
        ) => Some(
            ChatMessageView { role, content, reasoning_content, tool_calls, tool_call_id },
        ),
        _ => None,
    }
}

fn read_role(name: &str) -> (out: Option<Role>)
    ensures
        out == role_of(name@),
{
    if same(name, "system") {
        Some(Role::System)
    } else if same(name, "user") {
        Some(Role::User)
    } else if same(name, "assistant") {
        Some(Role::Assistant)
    } else if same(name, "tool") {
        Some(Role::Tool)
    } else {
        None
    }
}

/// The role something means.
fn role_from(value: &Json) -> (out: Option<Role>)
    ensures
        out == role_in(value@),
{
    match value {
        Json::Text(name) => read_role(name),
        Json::Object(entries) => {
            if entries.len() != 1 {
                return None;
            }
            assert(value@->Object_0[0] == (entries@[0].0@, entries@[0].1@));
            let nothing: bool = match &entries[0].1 {
                Json::Null => true,
                Json::Object(inner) => inner.len() == 0,
                _ => false,
            };
            if nothing {
                read_role(&entries[0].0)
            } else {
                None
            }
        },
        _ => None,
    }
}

/// The name and the arguments of a call's function.
fn read_function(value: &Json) -> (out: Option<ToolCallFunction>)
    ensures
        match out {
            Some(function) => {
                &&& text_at(named(value@, function_fields()), "name"@) == Some(function.name@)
                &&& text_at(named(value@, function_fields()), "arguments"@) == Some(
                    function.arguments@,
                )
            },
            None => text_at(named(value@, function_fields()), "name"@) is None || text_at(
                named(value@, function_fields()),
                "arguments"@,
            ) is None,
        },
{
    let names = vec!["name", "arguments"];
    assert(name_views(names@) =~= function_fields());
    let (name, arguments) = match value.named(&names) {
        Some(value) => (value.text_under("name"), value.text_under("arguments")),
        None => (value.text_under("name"), value.text_under("arguments")),
    };
    match (name, arguments) {
        (Some(name), Some(arguments)) => Some(ToolCallFunction { name, arguments }),
        _ => None,
    }
}

impl ToolCall {
    /// A call read from the shape the API uses, or from a list of its fields.
    pub fn from_json(value: &Json) -> (out: Option<ToolCall>)
        ensures
            match out {
                Some(call) => call_of(value@) == Some(call@),
                None => call_of(value@) is None,
            },
    {
        let names = vec!["id", "type", "function"];
        assert(name_views(names@) =~= call_fields());
        match value.named(&names) {
            Some(value) => ToolCall::from_object(&value),
            None => ToolCall::from_object(value),
        }
    }

    fn from_object(value: &Json) -> (out: Option<ToolCall>)
        ensures
            match out {
                Some(call) => call_in(value@) == Some(call@),
                None => call_in(value@) is None,
            },
    {
        let kind: String = match value.get("type") {
            None => copy("function"),
            Some(kind) => match kind.as_text() {
                Some(kind) => copy(kind),
                None => {
                    return None;
                },
            },
        };
        let id: String = match value.text_under("id") {
            Some(id) => id,
            None => {
                return None;
            },
        };
        let function = match value.get("function") {
            Some(function) => function,
            None => {
                return None;
            },
        };
        match read_function(function) {
            Some(function) => Some(ToolCall { id, kind, function }),
            None => None,
        }
    }
}

proof fn lemma_calls_stop(items: Seq<JsonView>, n: int)
    requires
        0 <= n <= items.len(),
        calls_of(items.take(n)) is None,
    ensures
        calls_of(items) is None,
    decreases items.len() - n,
{
    if n < items.len() {
        assert(items.take(n + 1).drop_last() =~= items.take(n));
        lemma_calls_stop(items, n + 1);
    } else {
        assert(items.take(n) =~= items);
    }
}

fn read_calls(items: &Vec<Json>) -> (out: Option<Vec<ToolCall>>)
    ensures
        match out {
            Some(calls) => calls_of(item_views(items@)) == Some(call_views(calls@)),
            None => calls_of(item_views(items@)) is None,
        },
{
    let ghost all = item_views(items@);
    let mut out: Vec<ToolCall> = Vec::new();
    let mut i: usize = 0;
    proof {
        assert(all.take(0) =~= Seq::<JsonView>::empty());
        assert(call_views(out@) =~= Seq::<ToolCallView>::empty());
    }
    while i < items.len()
        invariant
            i <= items@.len(),
            all == item_views(items@),
            calls_of(all.take(i as int)) == Some(call_views(out@)),
        decreases items@.len() - i,
    {
        assert(all.take(i + 1).drop_last() =~= all.take(i as int));
        assert(all.take(i + 1).last() == items@[i as int]@);
        match ToolCall::from_json(&items[i]) {
            Some(call) => {
                let ghost before = call_views(out@);
                out.push(call);
                assert(call_views(out@) =~= before.push(call@));
            },
            None => {
                proof {
                    lemma_calls_stop(all, i + 1);
                }
                return None;
            },
        }
        i += 1;
    }
    assert(all.take(all.len() as int) =~= all);
    Some(out)
}

impl ChatMessage {
    /// A message read from the shape the API uses, or from a list of its fields.
    pub fn from_json(value: &Json) -> (out: Option<ChatMessage>)
        ensures
            match out {
                Some(message) => message_of(value@) == Some(message@),
                None => message_of(value@) is None,
            },
    {
        let names = vec!["role", "content", "reasoning_content", "tool_calls", "tool_call_id"];
        assert(name_views(names@) =~= message_fields());
        match value.named(&names) {
            Some(value) => ChatMessage::from_object(&value),
            None => ChatMessage::from_object(value),
        }
    }

    pub(crate) fn from_object(value: &Json) -> (out: Option<ChatMessage>)
        ensures
            match out {
                Some(message) => message_in(value@) == Some(message@),
                None => message_in(value@) is None,
            },
    {
        let role: Role = match value.get("role") {
            Some(role) => match role_from(role) {
                Some(role) => role,
                None => {
                    return None;
                },
            },
            None => {
                return None;
            },
        };
        let tool_calls: Vec<ToolCall> = match value.get("tool_calls") {
            None => {
                let none: Vec<ToolCall> = Vec::new();
                assert(call_views(none@) =~= Seq::<ToolCallView>::empty());
                none
            },
            Some(Json::List(items)) => {
                assert(value@.get("tool_calls"@)->0->List_0 =~= item_views(items@));
                match read_calls(items) {
                    Some(calls) => calls,
                    None => {
                        return None;
                    },
                }
            },
            Some(_) => {
                return None;
            },
        };
        match (
            value.maybe_text_under("content"),
            value.maybe_text_under("reasoning_content"),
            value.maybe_text_under("tool_call_id"),
        ) {
            (Some(content), Some(reasoning_content), Some(tool_call_id)) => Some(
                ChatMessage { role, content, reasoning_content, tool_calls, tool_call_id },
            ),
            _ => None,
        }
    }
}

/// Whether a model's reasoning has to be replayed with its tool calls: anything whose name starts
/// with the provider's, in either case of the ASCII letters.
pub open spec fn replay_model(model: Seq<char>) -> bool {
    let name = trim(model);
    begins(lowered(name), "deepseek"@)
}

/// Whether this model requires reasoning to be replayed with its tool calls.
///
/// "Anything from this provider" rather than a list of the models that currently need it: a name
/// added tomorrow is then already handled, and the cost of replaying reasoning that was not needed
/// is a few cached tokens.
pub fn requires_reasoning_replay(model: &str) -> (out: bool)
    ensures
        out == replay_model(model@),
{
    let name = chars_of(&trimmed(model));
    let lower = lowered_of(&name);
    begins_with(lower.as_slice(), chars_of("deepseek").as_slice())
}

/// How many of a run of messages owe reasoning.
pub open spec fn owing(messages: Seq<ChatMessageView>) -> nat
    decreases messages.len(),
{
    if messages.len() == 0 {
        0
    } else {
        owing(messages.drop_last()) + if messages.last().owes_reasoning() {
            1nat
        } else {
            0nat
        }
    }
}

/// Each message with the placeholder in where it owes one.
pub open spec fn patch_all(messages: Seq<ChatMessageView>) -> Seq<ChatMessageView> {
    Seq::new(messages.len(), |i: int| messages[i].patched())
}

/// Give every tool-calling assistant turn a `reasoning_content`, in place.
///
/// Returns how many turns were patched: zero for a model that does not require it, and zero for a
/// conversation that already carries its reasoning. Patching is deliberately the narrow fix:
/// nothing is reordered, nothing is dropped, so the prefix of the conversation is untouched and the
/// prefix cache survives.
pub fn enforce_reasoning_replay(messages: &mut [ChatMessage], model: &str) -> (out: usize)
    ensures
        replay_model(model@) ==> {
            &&& message_views(final(messages)@) == patch_all(message_views(old(messages)@))
            &&& out == owing(message_views(old(messages)@))
        },
        !replay_model(model@) ==> final(messages)@ == old(messages)@ && out == 0,
{
    if !requires_reasoning_replay(model) {
        return 0;
    }
    let ghost before = message_views(messages@);
    let mut patched: usize = 0;
    let mut i: usize = 0;
    assert(before.take(0) =~= Seq::<ChatMessageView>::empty());
    while i < messages.len()
        invariant
            i <= messages@.len(),
            before.len() == messages@.len(),
            patched == owing(before.take(i as int)),
            patched <= i,
            forall|k: int| 0 <= k < i ==> (#[trigger] messages@[k])@ == before[k].patched(),
            forall|k: int| i <= k < messages@.len() ==> (#[trigger] messages@[k])@ == before[k],
        decreases messages@.len() - i,
    {
        assert(before.take(i + 1).drop_last() =~= before.take(i as int));
        assert(messages@[i as int]@ == before[i as int]);
        if messages[i].asks_for_tools() && !messages[i].has_reasoning() {
            messages[i].reasoning_content = Some(copy(REASONING_REPLAY_PLACEHOLDER));
            patched += 1;
        }
        i += 1;
    }
    assert(before.take(before.len() as int) =~= before);
    assert(message_views(messages@) =~= patch_all(before));
    patched
}

// ---------------------------------------------------------------------------------------------
// Laws

/// A call survives being written down: reading its JSON gives the call back.
pub proof fn law_a_call_round_trips(call: ToolCallView)
    ensures
        call_of(call.json()) == Some(call),
        plain(call.json(), 2),
{
    reveal_strlit("id");
    reveal_strlit("type");
    reveal_strlit("function");
    reveal_strlit("name");
    reveal_strlit("arguments");
    reveal_with_fuel(JsonView::position, 4);
    reveal_with_fuel(plain, 3);
    let entries = call.json()->Object_0;
    assert("id"@.len() == 2 && "type"@.len() == 4 && "function"@.len() == 8);
    assert("name"@.len() == 4 && "arguments"@.len() == 9);
    let inner = entries[2].1->Object_0;
    assert(entries[0].0 == "id"@ && entries[1].0 == "type"@ && entries[2].0 == "function"@);
    assert(inner[0].0 == "name"@ && inner[1].0 == "arguments"@);
    assert(plain(entries[0].1, 1) && plain(entries[1].1, 1));
    assert(plain(inner[0].1, 0) && plain(inner[1].1, 0));
    assert(plain(entries[2].1, 1));
}

proof fn lemma_calls_round_trip(calls: Seq<ToolCallView>)
    ensures
        calls_of(Seq::new(calls.len(), |i: int| calls[i].json())) == Some(calls),
    decreases calls.len(),
{
    let items = Seq::new(calls.len(), |i: int| calls[i].json());
    if calls.len() > 0 {
        let front = calls.drop_last();
        lemma_calls_round_trip(front);
        assert(items.drop_last() =~= Seq::new(front.len(), |i: int| front[i].json()));
        law_a_call_round_trips(calls.last());
        assert(front.push(calls.last()) =~= calls);
    } else {
        assert(calls =~= Seq::<ToolCallView>::empty());
    }
}

/// The five keys of a message are five.
proof fn lemma_keys_differ()
    ensures
        "role"@ != "content"@,
        "role"@ != "reasoning_content"@,
        "role"@ != "tool_calls"@,
        "role"@ != "tool_call_id"@,
        "content"@ != "reasoning_content"@,
        "content"@ != "tool_calls"@,
        "content"@ != "tool_call_id"@,
        "reasoning_content"@ != "tool_calls"@,
        "reasoning_content"@ != "tool_call_id"@,
        "tool_calls"@ != "tool_call_id"@,
        "kind"@ != "role"@,
        "kind"@ != "content"@,
        "kind"@ != "reasoning_content"@,
        "kind"@ != "tool_calls"@,
        "kind"@ != "tool_call_id"@,
{
    reveal_strlit("kind");
    reveal_strlit("role");
    reveal_strlit("content");
    reveal_strlit("reasoning_content");
    reveal_strlit("tool_calls");
    reveal_strlit("tool_call_id");
    assert("kind"@[0] == 'k' && "role"@[0] == 'r');
    assert("role"@.len() == 4 && "content"@.len() == 7 && "reasoning_content"@.len() == 17);
    assert("tool_calls"@.len() == 10 && "tool_call_id"@.len() == 12);
}

/// The entry of the calls, when there are any.
pub open spec fn calls_entry(calls: Seq<ToolCallView>) -> Seq<(Seq<char>, JsonView)> {
    if calls.len() == 0 {
        Seq::empty()
    } else {
        seq![
            ("tool_calls"@, JsonView::List(Seq::new(calls.len(), |i: int| calls[i].json()))),
        ]
    }
}

pub proof fn lemma_text_entry(key: Seq<char>, words: Option<Seq<char>>, wanted: Seq<char>)
    ensures
        JsonView::Object(text_entry(key, words)).get(wanted) == if key == wanted
            && words is Some {
            Some(JsonView::Text(words->0))
        } else {
            None
        },
        distinct_keys(text_entry(key, words)),
        key != wanted ==> lacks(text_entry(key, words), wanted),
        forall|i: int|
            0 <= i < text_entry(key, words).len() ==> (#[trigger] text_entry(key, words)[i]).0
                == key,
{
    match words {
        Some(words) => {
            lemma_get_one(key, JsonView::Text(words), wanted);
        },
        None => {
            lemma_get_one(key, JsonView::Null, wanted);
        },
    }
}

proof fn lemma_calls_entry(calls: Seq<ToolCallView>, wanted: Seq<char>)
    ensures
        JsonView::Object(calls_entry(calls)).get(wanted) == if wanted == "tool_calls"@ && calls.len()
            > 0 {
            Some(JsonView::List(Seq::new(calls.len(), |i: int| calls[i].json())))
        } else {
            None
        },
        distinct_keys(calls_entry(calls)),
        "tool_calls"@ != wanted ==> lacks(calls_entry(calls), wanted),
        forall|i: int|
            0 <= i < calls_entry(calls).len() ==> (#[trigger] calls_entry(calls)[i]).0
                == "tool_calls"@,
{
    let list = JsonView::List(Seq::new(calls.len(), |i: int| calls[i].json()));
    lemma_get_one("tool_calls"@, list, wanted);
}

/// What a message's JSON holds under each key, and that no key stands twice; also with entries of
/// another key in front.
proof fn lemma_message_entries(front: Seq<(Seq<char>, JsonView)>, message: ChatMessageView)
    requires
        distinct_keys(front),
        forall|i: int| 0 <= i < front.len() ==> (#[trigger] front[i]).0 == "kind"@,
    ensures
        ({
            let value = JsonView::Object(front + message.json()->Object_0);
            &&& value.get("role"@) == Some(JsonView::Text(role_name(message.role)))
            &&& maybe_text_at(value, "content"@) == Some(message.content)
            &&& maybe_text_at(value, "reasoning_content"@) == Some(message.reasoning_content)
            &&& maybe_text_at(value, "tool_call_id"@) == Some(message.tool_call_id)
            &&& value.get("tool_calls"@) == if message.tool_calls.len() > 0 {
                Some(
                    JsonView::List(
                        Seq::new(
                            message.tool_calls.len(),
                            |i: int| message.tool_calls[i].json(),
                        ),
                    ),
                )
            } else {
                None
            }
            &&& distinct_keys(front + message.json()->Object_0)
        }),
{
    lemma_keys_differ();
    let role = seq![("role"@, JsonView::Text(role_name(message.role)))];
    let content = text_entry("content"@, message.content);
    let reasoning = text_entry("reasoning_content"@, message.reasoning_content);
    let calls = calls_entry(message.tool_calls);
    let id = text_entry("tool_call_id"@, message.tool_call_id);
    let a = front + role;
    let b = a + content;
    let c = b + reasoning;
    let d = c + calls;
    let e = d + id;
    assert(message.json()->Object_0 =~= role + content + reasoning + calls + id);
    assert(front + message.json()->Object_0 =~= e);
    assert forall|key: Seq<char>|
        #![trigger JsonView::Object(e).get(key)]
        JsonView::Object(e).get(key) == match JsonView::Object(front).get(key) {
            Some(value) => Some(value),
            None => match JsonView::Object(role).get(key) {
                Some(value) => Some(value),
                None => match JsonView::Object(content).get(key) {
                    Some(value) => Some(value),
                    None => match JsonView::Object(reasoning).get(key) {
                        Some(value) => Some(value),
                        None => match JsonView::Object(calls).get(key) {
                            Some(value) => Some(value),
                            None => JsonView::Object(id).get(key),
                        },
                    },
                },
            },
        } by {
        lemma_get_add(front, role, key);
        lemma_get_add(a, content, key);
        lemma_get_add(b, reasoning, key);
        lemma_get_add(c, calls, key);
        lemma_get_add(d, id, key);
    }
    lemma_message_key(front, message, "role"@);
    lemma_message_key(front, message, "content"@);
    lemma_message_key(front, message, "reasoning_content"@);
    lemma_message_key(front, message, "tool_calls"@);
    lemma_message_key(front, message, "tool_call_id"@);
    // No key twice.
    assert(lacks(front, "role"@));
    lemma_distinct_add(front, role);
    lemma_lacks_add(front, role, "content"@);
    lemma_distinct_add(a, content);
    lemma_lacks_add(front, role, "reasoning_content"@);
    lemma_lacks_add(a, content, "reasoning_content"@);
    lemma_distinct_add(b, reasoning);
    lemma_lacks_add(front, role, "tool_calls"@);
    lemma_lacks_add(a, content, "tool_calls"@);
    lemma_lacks_add(b, reasoning, "tool_calls"@);
    lemma_distinct_add(c, calls);
    lemma_lacks_add(front, role, "tool_call_id"@);
    lemma_lacks_add(a, content, "tool_call_id"@);
    lemma_lacks_add(b, reasoning, "tool_call_id"@);
    lemma_lacks_add(c, calls, "tool_call_id"@);
    lemma_distinct_add(d, id);
}

proof fn lemma_message_key(
    front: Seq<(Seq<char>, JsonView)>,
    message: ChatMessageView,
    key: Seq<char>,
)
    requires
        forall|i: int| 0 <= i < front.len() ==> (#[trigger] front[i]).0 == "kind"@,
        key != "kind"@,
    ensures
        JsonView::Object(front).get(key) is None,
        ({
            let role = seq![("role"@, JsonView::Text(role_name(message.role)))];
            JsonView::Object(role).get(key) == if key == "role"@ {
                Some(JsonView::Text(role_name(message.role)))
            } else {
                None
            }
        }),
        JsonView::Object(text_entry("content"@, message.content)).get(key) == if key == "content"@
            && message.content is Some {
            Some(JsonView::Text(message.content->0))
        } else {
            None
        },
        JsonView::Object(text_entry("reasoning_content"@, message.reasoning_content)).get(key)
            == if key == "reasoning_content"@ && message.reasoning_content is Some {
            Some(JsonView::Text(message.reasoning_content->0))
        } else {
            None
        },
        JsonView::Object(calls_entry(message.tool_calls)).get(key) == if key == "tool_calls"@
            && message.tool_calls.len() > 0 {
            Some(
                JsonView::List(
                    Seq::new(message.tool_calls.len(), |i: int| message.tool_calls[i].json()),
                ),
            )
        } else {
            None
        },
        JsonView::Object(text_entry("tool_call_id"@, message.tool_call_id)).get(key) == if key
            == "tool_call_id"@ && message.tool_call_id is Some {
            Some(JsonView::Text(message.tool_call_id->0))
        } else {
            None
        },
        distinct_keys(text_entry("content"@, message.content)),
        distinct_keys(text_entry("reasoning_content"@, message.reasoning_content)),
        distinct_keys(calls_entry(message.tool_calls)),
        distinct_keys(text_entry("tool_call_id"@, message.tool_call_id)),
        key != "content"@ ==> lacks(text_entry("content"@, message.content), key),
        key != "reasoning_content"@ ==> lacks(
            text_entry("reasoning_content"@, message.reasoning_content),
            key,
        ),
        key != "tool_calls"@ ==> lacks(calls_entry(message.tool_calls), key),
        lacks(front, key),
{
    lemma_absent(front, key);
    lemma_get_one("role"@, JsonView::Text(role_name(message.role)), key);
    lemma_text_entry("content"@, message.content, key);
    lemma_text_entry("reasoning_content"@, message.reasoning_content, key);
    lemma_calls_entry(message.tool_calls, key);
    lemma_text_entry("tool_call_id"@, message.tool_call_id, key);
}

/// A message survives being written down, with or without what marks it as a line of a session:
/// reading its JSON gives the message back.
pub proof fn law_a_message_round_trips(message: ChatMessageView, front: Seq<(Seq<char>, JsonView)>)
    requires
        distinct_keys(front),
        forall|i: int| 0 <= i < front.len() ==> (#[trigger] front[i]).0 == "kind"@ && plain(
            front[i].1,
            0,
        ),
    ensures
        message_of(JsonView::Object(front + message.json()->Object_0)) == Some(message),
        plain(JsonView::Object(front + message.json()->Object_0), 4),
{
    lemma_message_entries(front, message);
    lemma_calls_round_trip(message.tool_calls);
    lemma_roles();
    let entries = front + message.json()->Object_0;
    let value = JsonView::Object(entries);
    assert(message_of(value) == Some(message)) by {
        if message.tool_calls.len() == 0 {
            assert(message.tool_calls =~= Seq::<ToolCallView>::empty());
        }
    }
    assert forall|i: int| 0 <= i < entries.len() implies plain((#[trigger] entries[i]).1, 3) by {
        if i < front.len() {
            assert(entries[i] == front[i]);
            lemma_plain_more(front[i].1, 0, 3);
        } else {
            let own = message.json()->Object_0;
            assert(entries[i] == own[i - front.len()]);
            lemma_own_entries_plain(message, i - front.len());
        }
    }
}

proof fn lemma_own_entries_plain(message: ChatMessageView, i: int)
    requires
        0 <= i < message.json()->Object_0.len(),
    ensures
        plain((message.json()->Object_0[i]).1, 3),
{
    let own = message.json()->Object_0;
    let calls = message.tool_calls;
    let items = Seq::new(calls.len(), |k: int| calls[k].json());
    assert forall|k: int| 0 <= k < items.len() implies plain(#[trigger] items[k], 2) by {
        law_a_call_round_trips(calls[k]);
    }
    assert(plain(JsonView::List(items), 3));
    assert(own[i].1 is Text || own[i].1 == JsonView::List(items));
}

proof fn lemma_roles()
    ensures
        forall|role: Role| role_of(#[trigger] role_name(role)) == Some(role),
{
    reveal_strlit("system");
    reveal_strlit("user");
    reveal_strlit("assistant");
    reveal_strlit("tool");
    assert("system"@.len() == 6 && "user"@.len() == 4 && "assistant"@.len() == 9 && "tool"@.len()
        == 4);
    assert("user"@[0] == 'u' && "tool"@[0] == 't');
}

/// Patching is the narrow fix: nothing is dropped or reordered, and of each message only reasoning
/// that was missing changes.
pub proof fn law_patching_touches_only_missing_reasoning(
    messages: Seq<ChatMessageView>,
    i: int,
)
    requires
        0 <= i < messages.len(),
    ensures
        patch_all(messages).len() == messages.len(),
        patch_all(messages)[i].role == messages[i].role,
        patch_all(messages)[i].content == messages[i].content,
        patch_all(messages)[i].tool_calls == messages[i].tool_calls,
        patch_all(messages)[i].tool_call_id == messages[i].tool_call_id,
        messages[i].has_reasoning() || !messages[i].asks_for_tools() ==> patch_all(messages)[i]
            == messages[i],
{
}

/// After patching no turn owes reasoning, and patching again changes nothing.
pub proof fn law_patching_settles_the_debt(messages: Seq<ChatMessageView>)
    ensures
        forall|i: int|
            0 <= i < messages.len() ==> !(#[trigger] patch_all(messages)[i]).owes_reasoning(),
        owing(patch_all(messages)) == 0,
        patch_all(patch_all(messages)) == patch_all(messages),
{
    reveal_strlit("(reasoning not recorded)");
    assert forall|i: int| 0 <= i < messages.len() implies !(#[trigger] patch_all(
        messages,
    )[i]).owes_reasoning() by {
        assert(!crate::text::white(REASONING_REPLAY_PLACEHOLDER@[0]));
    }
    lemma_nothing_owed(patch_all(messages));
    assert(patch_all(patch_all(messages)) =~= patch_all(messages));
}

proof fn lemma_nothing_owed(messages: Seq<ChatMessageView>)
    requires
        forall|i: int| 0 <= i < messages.len() ==> !(#[trigger] messages[i]).owes_reasoning(),
    ensures
        owing(messages) == 0,
    decreases messages.len(),
{
    if messages.len() > 0 {
        lemma_nothing_owed(messages.drop_last());
        assert(!messages[messages.len() - 1].owes_reasoning());
    }
}

/// A message is written under the API's own names, each part where it belongs: what it has is there
/// as it is, and what it lacks has no key at all.
pub proof fn law_a_message_is_written_under_its_keys(message: ChatMessageView)
    ensures
        message.json().get("role"@) == Some(
            JsonView::Text(
                match message.role {
                    Role::System => "system"@,
                    Role::User => "user"@,
                    Role::Assistant => "assistant"@,
                    Role::Tool => "tool"@,
                },
            ),
        ),
        message.content matches Some(text) ==> message.json().get("content"@) == Some(
            JsonView::Text(text),
        ),
        message.content is None ==> message.json().get("content"@) is None,
        message.reasoning_content matches Some(text) ==> message.json().get("reasoning_content"@)
            == Some(JsonView::Text(text)),
        message.reasoning_content is None ==> message.json().get("reasoning_content"@) is None,
        message.tool_call_id matches Some(id) ==> message.json().get("tool_call_id"@) == Some(
            JsonView::Text(id),
        ),
        message.tool_call_id is None ==> message.json().get("tool_call_id"@) is None,
        message.tool_calls.len() == 0 ==> message.json().get("tool_calls"@) is None,
        message.tool_calls.len() > 0 ==> {
            &&& message.json().get("tool_calls"@) matches Some(JsonView::List(calls))
            &&& calls.len() == message.tool_calls.len()
            &&& forall|i: int|
                0 <= i < calls.len() ==> {
                    let call = message.tool_calls[i];
                    &&& (#[trigger] calls[i]).get("id"@) == Some(JsonView::Text(call.id))
                    &&& calls[i].get("type"@) == Some(JsonView::Text(call.kind))
                    &&& calls[i].get_in("function"@, "name"@) == Some(JsonView::Text(call.name))
                    &&& calls[i].get_in("function"@, "arguments"@) == Some(
                        JsonView::Text(call.arguments),
                    )
                }
        },
{
    lemma_keys_differ();
    let none = Seq::<(Seq<char>, JsonView)>::empty();
    lemma_message_entries(none, message);
    assert(none + message.json()->Object_0 =~= message.json()->Object_0);
    lemma_texts_left_out(message);
    if message.tool_calls.len() > 0 {
        let calls = message.json().get("tool_calls"@)->0->List_0;
        assert forall|i: int| 0 <= i < calls.len() implies {
            let call = message.tool_calls[i];
            &&& (#[trigger] calls[i]).get("id"@) == Some(JsonView::Text(call.id))
            &&& calls[i].get("type"@) == Some(JsonView::Text(call.kind))
            &&& calls[i].get_in("function"@, "name"@) == Some(JsonView::Text(call.name))
            &&& calls[i].get_in("function"@, "arguments"@) == Some(JsonView::Text(call.arguments))
        } by {
            lemma_call_entries(message.tool_calls[i]);
        }
    }
}

proof fn lemma_call_entries(call: ToolCallView)
    ensures
        call.json().get("id"@) == Some(JsonView::Text(call.id)),
        call.json().get("type"@) == Some(JsonView::Text(call.kind)),
        call.json().get_in("function"@, "name"@) == Some(JsonView::Text(call.name)),
        call.json().get_in("function"@, "arguments"@) == Some(JsonView::Text(call.arguments)),
{
    reveal_strlit("id");
    reveal_strlit("type");
    reveal_strlit("function");
    reveal_strlit("name");
    reveal_strlit("arguments");
    reveal_with_fuel(JsonView::position, 4);
    assert("id"@.len() == 2 && "type"@.len() == 4 && "function"@.len() == 8);
    assert("name"@.len() == 4 && "arguments"@.len() == 9);
}

/// A text a message lacks has no key.
proof fn lemma_texts_left_out(message: ChatMessageView)
    ensures
        message.content is None ==> message.json().get("content"@) is None,
        message.reasoning_content is None ==> message.json().get("reasoning_content"@) is None,
        message.tool_call_id is None ==> message.json().get("tool_call_id"@) is None,
{
    lemma_keys_differ();
    let entries = message.json()->Object_0;
    let role = seq![("role"@, JsonView::Text(role_name(message.role)))];
    let content = text_entry("content"@, message.content);
    let reasoning = text_entry("reasoning_content"@, message.reasoning_content);
    let calls = calls_entry(message.tool_calls);
    let id = text_entry("tool_call_id"@, message.tool_call_id);
    assert(entries =~= role + content + reasoning + calls + id);
    assert forall|key: Seq<char>| key == "content"@ || key == "reasoning_content"@ || key
        == "tool_call_id"@ implies #[trigger] message.json().get(key) == (if key == "content"@ {
        JsonView::Object(content).get(key)
    } else if key == "reasoning_content"@ {
        JsonView::Object(reasoning).get(key)
    } else {
        JsonView::Object(id).get(key)
    }) by {
        lemma_get_one("role"@, JsonView::Text(role_name(message.role)), key);
        lemma_text_entry("content"@, message.content, key);
        lemma_text_entry("reasoning_content"@, message.reasoning_content, key);
        lemma_calls_entry(message.tool_calls, key);
        lemma_text_entry("tool_call_id"@, message.tool_call_id, key);
        lemma_get_add(role, content, key);
        lemma_get_add(role + content, reasoning, key);
        lemma_get_add(role + content + reasoning, calls, key);
        lemma_get_add(role + content + reasoning + calls, id, key);
    }
    lemma_text_entry("content"@, message.content, "content"@);
    lemma_text_entry("reasoning_content"@, message.reasoning_content, "reasoning_content"@);
    lemma_text_entry("tool_call_id"@, message.tool_call_id, "tool_call_id"@);
}

/// A message that is read holds what stands under its keys: the role by its name, each text as it
/// stands, nothing for what is missing or null, and the calls one for one.
pub proof fn law_a_message_is_read_from_its_keys(value: JsonView, message: ChatMessageView)
    requires
        value is Object,
        message_of(value) == Some(message),
    ensures
        value.get("role"@) matches Some(JsonView::Text(name)) ==> name == role_name(message.role),
        value.get("content"@) == (match message.content {
            Some(text) => Some(JsonView::Text(text)),
            None => if value.get("content"@) is Some {
                Some(JsonView::Null)
            } else {
                None
            },
        }),
        value.get("reasoning_content"@) == (match message.reasoning_content {
            Some(text) => Some(JsonView::Text(text)),
            None => if value.get("reasoning_content"@) is Some {
                Some(JsonView::Null)
            } else {
                None
            },
        }),
        value.get("tool_call_id"@) == (match message.tool_call_id {
            Some(text) => Some(JsonView::Text(text)),
            None => if value.get("tool_call_id"@) is Some {
                Some(JsonView::Null)
            } else {
                None
            },
        }),
        value.get("tool_calls"@) is None ==> message.tool_calls.len() == 0,
        value.get("tool_calls"@) is Some ==> {
            &&& value.get("tool_calls"@) matches Some(JsonView::List(calls))
            &&& calls.len() == message.tool_calls.len()
            &&& forall|i: int|
                0 <= i < calls.len() && (#[trigger] calls[i]) is Object ==> {
                    let call = message.tool_calls[i];
                    &&& calls[i].get("id"@) == Some(JsonView::Text(call.id))
                    &&& calls[i].get("type"@) == Some(JsonView::Text(call.kind)) || (calls[i].get(
                        "type"@,
                    ) is None && call.kind == "function"@)
                    &&& calls[i].get("function"@)->0 is Object ==> calls[i].get_in(
                        "function"@,
                        "name"@,
                    ) == Some(JsonView::Text(call.name)) && calls[i].get_in(
                        "function"@,
                        "arguments"@,
                    ) == Some(JsonView::Text(call.arguments))
                }
        },
{
    if let Some(JsonView::List(items)) = value.get("tool_calls"@) {
        lemma_calls_read(items);
    }
}

proof fn lemma_calls_read(items: Seq<JsonView>)
    requires
        calls_of(items) is Some,
    ensures
        calls_of(items)->0.len() == items.len(),
        forall|i: int|
            0 <= i < items.len() ==> call_of(#[trigger] items[i]) == Some(calls_of(items)->0[i]),
    decreases items.len(),
{
    if items.len() > 0 {
        lemma_calls_read(items.drop_last());
        assert forall|i: int| 0 <= i < items.len() implies call_of(#[trigger] items[i]) == Some(
            calls_of(items)->0[i],
        ) by {
            if i < items.len() - 1 {
                assert(items.drop_last()[i] == items[i]);
            }
        }
    }
}

/// An object whose role is one of the four names, whose texts are texts, null or missing and that
/// asks for no tools is a message.
pub proof fn law_a_well_typed_message_is_read(value: JsonView, role: Role)
    requires
        value is Object,
        value.get("role"@) == Some(JsonView::Text(role_name(role))),
        value.get("content"@) matches Some(text) ==> text is Null || text is Text,
        value.get("reasoning_content"@) matches Some(text) ==> text is Null || text is Text,
        value.get("tool_call_id"@) matches Some(text) ==> text is Null || text is Text,
        value.get("tool_calls"@) is None,
    ensures
        message_of(value) matches Some(message) && message.role == role,
{
    lemma_roles();
}

/// The placeholder goes to the assistant's turns that ask for tools without having recorded any
/// reasoning, white space being none, and to no other message.
pub proof fn law_the_placeholder_goes_where_reasoning_is_owed(
    messages: Seq<ChatMessageView>,
    i: int,
)
    requires
        0 <= i < messages.len(),
    ensures
        ({
            let owed = messages[i].role == Role::Assistant && messages[i].tool_calls.len() > 0
                && match messages[i].reasoning_content {
                Some(thought) => forall|k: int|
                    0 <= k < thought.len() ==> crate::text::white(#[trigger] thought[k]),
                None => true,
            };
            &&& owed ==> patch_all(messages)[i].reasoning_content == Some(
                "(reasoning not recorded)"@,
            )
            &&& !owed ==> patch_all(messages)[i] == messages[i]
        }),
{
}

/// The turns that are patched are counted one by one: the count of a conversation is that of its
/// parts together, and a single message counts exactly when patching changes what it thought.
pub proof fn law_the_patched_turns_are_counted(
    a: Seq<ChatMessageView>,
    b: Seq<ChatMessageView>,
    message: ChatMessageView,
)
    ensures
        owing(a + b) == owing(a) + owing(b),
        owing(seq![message]) == if patch_all(seq![message]) == seq![message] {
            0nat
        } else {
            1nat
        },
    decreases b.len(),
{
    if b.len() > 0 {
        law_the_patched_turns_are_counted(a, b.drop_last(), message);
        assert((a + b).drop_last() =~= a + b.drop_last());
    } else {
        assert(a + b =~= a);
    }
    let one = seq![message];
    assert(one.drop_last() =~= Seq::<ChatMessageView>::empty());
    assert(one.last() == message);
    reveal_with_fuel(owing, 2);
    assert(patch_all(one)[0] == message.patched());
    if message.owes_reasoning() {
        reveal_strlit("(reasoning not recorded)");
        assert(REASONING_REPLAY_PLACEHOLDER@[0] == '(');
        assert(!message.patched().owes_reasoning());
        assert(message.patched() != message);
        assert(patch_all(one)[0] != one[0]);
    } else {
        assert(patch_all(one) =~= one);
    }
}

/// A model is one whose reasoning is replayed exactly when its name, behind any white space, starts
/// with `deepseek` in whatever case.
pub proof fn law_the_provider_is_told_by_its_name(model: Seq<char>)
    ensures
        replay_model(model) <==> exists|i: int| #[trigger] named_at(model, i),
{
    reveal_strlit("deepseek");
    let cut = crate::text::law_trimming_takes_only_white_space(model);
    let name = trim(model);
    let k = cut.0.len() as int;
    assert("deepseek"@.len() == 8);
    if replay_model(model) {
        assert forall|j: int| 0 <= j < k implies crate::text::white(#[trigger] model[j]) by {
            assert(model[j] == cut.0[j]);
        }
        assert forall|j: int| 0 <= j < 8 implies crate::text::ascii_lower(#[trigger] model[k + j])
            == "deepseek"@[j] by {
            assert(model[k + j] == name[j]);
            assert(lowered(name).take(8)[j] == lowered(name)[j]);
        }
        assert(named_at(model, k));
    }
    if exists|i: int| #[trigger] named_at(model, i) {
        let i = choose|i: int| #[trigger] named_at(model, i);
        assert forall|j: int| 0 <= j < 8 implies !crate::text::white(#[trigger] model[i + j]) by {
            assert(crate::text::ascii_lower(model[i + j]) == "deepseek"@[j]);
        }
        assert(!crate::text::white(model[i + 0]));
        assert(!crate::text::white(model[i + 7]));
        if k < i {
            assert(crate::text::white(model[k]));
            if name.len() > 0 {
                assert(model[k] == name[0]);
            } else {
                assert(model[i + 0] == cut.1[i - k]);
            }
        }
        if k > i {
            assert(model[i + 0] == cut.0[i]);
        }
        if k + name.len() < i + 8 {
            assert(model[i + 7] == cut.1[i + 7 - k - name.len()]);
        }
        assert(lowered(name).take(8) =~= "deepseek"@) by {
            assert forall|j: int| 0 <= j < 8 implies lowered(name).take(8)[j] == "deepseek"@[j] by {
                assert(name[j] == model[i + j]);
            }
        }
    }
}

/// Whether the provider's name, in whatever case, stands at a position with nothing but white space
/// before it.
pub open spec fn named_at(model: Seq<char>, i: int) -> bool {
    &&& 0 <= i
    &&& i + 8 <= model.len()
    &&& forall|j: int| 0 <= j < i ==> crate::text::white(#[trigger] model[j])
    &&& forall|j: int|
        0 <= j < 8 ==> crate::text::ascii_lower(#[trigger] model[i + j]) == "deepseek"@[j]
}

/// The calls of a message are read all of them, each as itself, or the message is none.
pub proof fn law_calls_are_read_all_or_none(items: Seq<JsonView>)
    ensures
        calls_of(items) is Some <==> forall|i: int|
            0 <= i < items.len() ==> call_of(#[trigger] items[i]) is Some,
        calls_of(items) matches Some(calls) ==> calls.len() == items.len() && forall|i: int|
            0 <= i < items.len() ==> call_of(#[trigger] items[i]) == Some(calls[i]),
    decreases items.len(),
{
    if items.len() > 0 {
        let front = items.drop_last();
        law_calls_are_read_all_or_none(front);
        assert(call_of(items[items.len() - 1]) == call_of(items.last()));
        assert forall|i: int| 0 <= i < front.len() implies #[trigger] front[i] == items[i] by {}
        if calls_of(items) is Some {
            assert forall|i: int| 0 <= i < items.len() implies call_of(#[trigger] items[i]) == Some(
                calls_of(items)->0[i],
            ) by {
                if i < front.len() {
                    assert(call_of(front[i]) == Some(calls_of(front)->0[i]));
                }
            }
        } else if forall|i: int| 0 <= i < items.len() ==> call_of(#[trigger] items[i]) is Some {
            assert forall|i: int| 0 <= i < front.len() implies call_of(#[trigger] front[i])
                is Some by {
                assert(call_of(items[i]) is Some);
            }
        }
    }
}

/// A call is read where it has an id, a name and arguments, all of them texts; its type is a function
/// where none is said, and one that is no text makes it no call.
pub proof fn law_a_call_needs_its_id_its_name_and_its_arguments(
    value: JsonView,
    function: JsonView,
)
    requires
        value is Object,
        value.get("function"@) == Some(function),
        function is Object,
    ensures
        call_of(value) is Some <==> {
            &&& value.get("id"@) matches Some(JsonView::Text(_))
            &&& function.get("name"@) matches Some(JsonView::Text(_))
            &&& function.get("arguments"@) matches Some(JsonView::Text(_))
            &&& value.get("type"@) matches Some(kind) ==> kind is Text
        },
        call_of(value) matches Some(call) ==> {
            &&& value.get("id"@) == Some(JsonView::Text(call.id))
            &&& function.get("name"@) == Some(JsonView::Text(call.name))
            &&& function.get("arguments"@) == Some(JsonView::Text(call.arguments))
            &&& value.get("type"@) is None ==> call.kind == "function"@
            &&& value.get("type"@) matches Some(kind) ==> kind == JsonView::Text(call.kind)
        },
{
}

/// A role is its name, or an object whose only key is its name and that says nothing of it.
pub proof fn law_a_role_is_its_name(role: Role, value: JsonView)
    ensures
        role_in(JsonView::Text(role_name(role))) == Some(role),
        role_in(JsonView::Object(seq![(role_name(role), JsonView::Null)])) == Some(role),
        role_in(value) == Some(role) ==> match value {
            JsonView::Text(name) => name == role_name(role),
            JsonView::Object(entries) => entries.len() == 1 && entries[0].0 == role_name(role) && (
            entries[0].1 is Null || entries[0].1 == JsonView::Object(Seq::empty())),
            _ => false,
        },
{
    lemma_roles();
    let one = seq![(role_name(role), JsonView::Null)];
    assert(one[0] == (role_name(role), JsonView::Null));
    if role_in(value) == Some(role) {
        if let JsonView::Object(entries) = value {
            if let JsonView::Object(inner) = entries[0].1 {
                assert(inner =~= Seq::<(Seq<char>, JsonView)>::empty());
            }
        }
    }
}

/// A message, and a call, can be written as a list of its fields in their order: what it says is what
/// the object with their names says.
pub proof fn law_fields_can_be_told_by_their_place(
    role: JsonView,
    content: JsonView,
    id: JsonView,
    kind: JsonView,
    function: JsonView,
)
    ensures
        message_of(JsonView::List(seq![role, content])) == message_of(
            JsonView::Object(seq![("role"@, role), ("content"@, content)]),
        ),
        call_of(JsonView::List(seq![id, kind, function])) == call_of(
            JsonView::Object(seq![("id"@, id), ("type"@, kind), ("function"@, function)]),
        ),
{
    assert(named(JsonView::List(seq![role, content]), message_fields()) == JsonView::Object(
        seq![("role"@, role), ("content"@, content)],
    )) by {
        assert(named(JsonView::List(seq![role, content]), message_fields())->Object_0 =~= seq![
            ("role"@, role),
            ("content"@, content),
        ]);
    }
    assert(named(JsonView::List(seq![id, kind, function]), call_fields())->Object_0 =~= seq![
        ("id"@, id),
        ("type"@, kind),
        ("function"@, function),
    ]);
}

} // verus!
