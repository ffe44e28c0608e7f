//! The request a turn is sent as, and a retry rule that knows when to give up.
//!
//! Two decisions worth stating, because each of them is a bug if made the other way round:
//!
//! - **A stream that has already produced text is never retried.** A retry re-sends the request
//!   from the start; doing that after the model has answered would splice two answers together in
//!   the transcript and burn a second turn's tokens. Retries are for the part before the answer.
//! - **An answer that is not a 2xx is read as an error, not as a stream.** The API explains what
//!   went wrong in the body; that message is what a user needs to see.

use std::time::Duration;

use vstd::arithmetic::power2::{lemma2_to64, lemma_pow2_unfold, pow2};
use vstd::prelude::*;

use crate::json::{
    entry_views, item_views, json_parse, list, no_entries, object, put, text, Json, JsonView,
};
use crate::message::{message_of, ChatMessage, ChatMessageView};
use crate::stream::{
    delta_events, event_views, parse_delta, FinishReasonView, SseBuffer, StreamEvent,
    StreamEventView,
};
use crate::text::{
    blank, chars_of, copy, decimal, decimal_of, is_blank, lossy, lossy_text, string_of, trim,
    trimmed, views,
};

verus! {

/// How many times a turn may be sent before its answer has started.
pub const MAX_ATTEMPTS: u32 = 3;

/// The first backoff in milliseconds, doubled per attempt: 500 ms, 1 s.
pub const RETRY_BASE_MS: u64 = 500;

// ---------------------------------------------------------------------------------------------
// What a request is made of

/// What one tool looks like on the wire.
///
/// Held as JSON rather than as a typed schema: the tool layer owns what the fields *mean*, and this
/// layer only has to put them in the request.
#[derive(Debug, PartialEq)]
pub struct ToolSpec {
    pub name: String,
    pub description: String,
    pub parameters: Json,
}

#[verifier::ext_equal]
pub struct ToolSpecView {
    pub name: Seq<char>,
    pub description: Seq<char>,
    pub parameters: JsonView,
}

impl View for ToolSpec {
    type V = ToolSpecView;

    open spec fn view(&self) -> ToolSpecView {
        ToolSpecView {
            name: self.name@,
            description: self.description@,
            parameters: self.parameters@,
        }
    }
}

impl ToolSpecView {
    /// The tool as a request carries it.
    pub open spec fn json(self) -> JsonView {
        JsonView::Object(
            seq![
                ("type"@, JsonView::Text("function"@)),
                (
                    "function"@,
                    JsonView::Object(
                        seq![
                            ("name"@, JsonView::Text(self.name)),
                            ("description"@, JsonView::Text(self.description)),
                            ("parameters"@, self.parameters),
                        ],
                    ),
                ),
            ],
        )
    }
}

/// What each tool of a list looks like.
pub open spec fn spec_views(tools: Seq<ToolSpec>) -> Seq<ToolSpecView> {
    Seq::new(tools.len(), |i: int| tools[i]@)
}

impl ToolSpec {
    pub fn new(name: &str, description: &str, parameters: Json) -> (out: Self)
        ensures
            out@ == (ToolSpecView {
                name: name@,
                description: description@,
                parameters: parameters@,
            }),
    {
        ToolSpec { name: copy(name), description: copy(description), parameters }
    }

    /// The tool as a request carries it.
    pub fn to_json(&self) -> (out: Json)
        ensures
            out@ == self@.json(),
    {
        let mut function = no_entries();
        put(&mut function, "name", text(&self.name));
        put(&mut function, "description", text(&self.description));
        put(&mut function, "parameters", self.parameters.duplicate());
        let ghost inner = entry_views(function@);
        let mut entries = no_entries();
        put(&mut entries, "type", text("function"));
        put(&mut entries, "function", object(function));
        assert(inner =~= self@.json()->Object_0[1].1->Object_0);
        assert(entry_views(entries@) =~= self@.json()->Object_0);
        object(entries)
    }
}

/// Where to reach the model.
#[derive(Debug, Clone)]
pub struct ClientConfig {
    pub base_url: String,
    pub model: String,
    pub api_key: String,
}

#[verifier::ext_equal]
pub struct ClientConfigView {
    pub base_url: Seq<char>,
    pub model: Seq<char>,
    pub api_key: Seq<char>,
}

impl View for ClientConfig {
    type V = ClientConfigView;

    open spec fn view(&self) -> ClientConfigView {
        ClientConfigView {
            base_url: self.base_url@,
            model: self.model@,
            api_key: self.api_key@,
        }
    }
}

impl ClientConfig {
    pub fn new(base_url: &str, model: &str, api_key: &str) -> (out: Self)
        ensures
            out@ == (ClientConfigView { base_url: base_url@, model: model@, api_key: api_key@ }),
    {
        ClientConfig { base_url: copy(base_url), model: copy(model), api_key: copy(api_key) }
    }
}

// ---------------------------------------------------------------------------------------------
// What can go wrong

/// A request that got no answer: which of the retryable kinds of failure it was, and its text.
#[derive(Debug, Clone, PartialEq, Eq)]
pub struct HttpFault {
    pub timeout: bool,
    pub connect: bool,
    pub request: bool,
    pub message: String,
}

#[derive(Debug, Clone, PartialEq, Eq)]
pub enum ApiError {
    Http(HttpFault),
    /// A non-2xx answer. The body is the provider's own explanation.
    Status { status: u16, body: String },
    /// The request never had a key to send.
    MissingKey(String),
    /// The stream arrived but a payload in it was not readable. Its own variant rather than a
    /// made-up status: a 200 that failed to parse is not a 200 that failed.
    Stream(String),
}

#[verifier::ext_equal]
pub enum ApiErrorView {
    Http { timeout: bool, connect: bool, request: bool, message: Seq<char> },
    Status { status: u16, body: Seq<char> },
    MissingKey(Seq<char>),
    Stream(Seq<char>),
}

impl View for ApiError {
    type V = ApiErrorView;

    open spec fn view(&self) -> ApiErrorView {
        match *self {
            ApiError::Http(fault) => ApiErrorView::Http {
                timeout: fault.timeout,
                connect: fault.connect,
                request: fault.request,
                message: fault.message@,
            },
            ApiError::Status { status, body } => ApiErrorView::Status { status, body: body@ },
            ApiError::MissingKey(name) => ApiErrorView::MissingKey(name@),
            ApiError::Stream(text) => ApiErrorView::Stream(text@),
        }
    }
}

impl ApiErrorView {
    /// Whether the same request may do better: a socket that died and a server at fault may, a
    /// request that is itself wrong will not, and nothing is sent twice once an answer has begun.
    pub open spec fn worth_retrying(self, emitted: bool) -> bool {
        !emitted && match self {
            ApiErrorView::Http { timeout, connect, request, .. } => timeout || connect || request,
            ApiErrorView::Status { status, .. } => status == 429 || status >= 500,
            ApiErrorView::Stream(_) => true,
            ApiErrorView::MissingKey(_) => false,
        }
    }

    /// What a user is told.
    pub open spec fn message(self) -> Seq<char> {
        match self {
            ApiErrorView::Http { message, .. } => "请求失败: "@ + message,
            ApiErrorView::Status { status, body } => "DeepSeek 返回 "@ + decimal(status as nat)
                + ": "@ + body,
            ApiErrorView::MissingKey(name) => "没有 API key：把 "@ + name
                + " 设成你的 DeepSeek key，或在 config.toml 里改 api_key_env"@,
            ApiErrorView::Stream(text) => "流里的 JSON 读不出来: "@ + text,
        }
    }
}

impl ApiError {
    /// Whether it is worth sending the same request again.
    ///
    /// `emitted` is whether the stream has already produced anything: once it has, a retry would
    /// duplicate what the user can already see.
    pub fn worth_retrying(&self, emitted: bool) -> (out: bool)
        ensures
            out == self@.worth_retrying(emitted),
    {
        if emitted {
            return false;
        }
        match self {
            // A request that never left, or a socket that died, is worth another try.
            ApiError::Http(fault) => fault.timeout || fault.connect || fault.request,
            // The server's fault, or its load balancer's. A 4xx is ours, and repeating it would
            // only repeat the answer.
            ApiError::Status { status, .. } => *status == 429 || *status >= 500,
            // A chunk that did not parse will not parse on a second read either, but only if it
            // was the answer starting; before that, the whole request is worth one more try.
            ApiError::Stream(_) => true,
            ApiError::MissingKey(_) => false,
        }
    }

    /// What a user is told.
    pub fn message(&self) -> (out: String)
        ensures
            out@ == self@.message(),
    {
        match self {
            ApiError::Http(fault) => {
                let mut out = copy("请求失败: ");
                out.append(&fault.message);
                out
            },
            ApiError::Status { status, body } => {
                let mut out = copy("DeepSeek 返回 ");
                out.append(&decimal_of(*status as u64));
                out.append(": ");
                out.append(body);
                out
            },
            ApiError::MissingKey(name) => {
                let mut out = copy("没有 API key：把 ");
                out.append(name);
                out.append(" 设成你的 DeepSeek key，或在 config.toml 里改 api_key_env");
                out
            },
            ApiError::Stream(text) => {
                let mut out = copy("流里的 JSON 读不出来: ");
                out.append(text);
                out
            },
        }
    }
}

/// What an answer's status line makes of it: nothing for a success, an error that carries the
/// provider's own explanation for anything else.
pub open spec fn refusal_view(status: u16, body: Seq<char>) -> Option<ApiErrorView> {
    if 200 <= status < 300 {
        None
    } else {
        Some(ApiErrorView::Status { status, body: trim(body) })
    }
}

/// Whether an answer is an error rather than a stream.
pub fn refusal(status: u16, body: &str) -> (out: Option<ApiError>)
    ensures
        match out {
            Some(error) => refusal_view(status, body@) == Some(error@),
            None => refusal_view(status, body@) is None,
        },
{
    if 200 <= status && status < 300 {
        None
    } else {
        Some(ApiError::Status { status, body: trimmed(body) })
    }
}

// ---------------------------------------------------------------------------------------------
// Retries

/// The wait before attempt `attempt` (1-based), in milliseconds: 500 ms, then 1 s, then 2 s. The
/// doubling stops where the factor no longer fits 32 bits.
pub open spec fn retry_wait(attempt: u32) -> nat {
    let doublings: nat = if attempt == 0 {
        0
    } else {
        (attempt - 1) as nat
    };
    RETRY_BASE_MS as nat * if pow2(doublings) <= u32::MAX {
        pow2(doublings)
    } else {
        u32::MAX as nat
    }
}

proof fn lemma_pow2_grows(n: nat, m: nat)
    requires
        n <= m,
    ensures
        1 <= pow2(n) <= pow2(m),
    decreases m,
{
    lemma2_to64();
    if n < m {
        lemma_pow2_unfold(m);
        lemma_pow2_grows(n, (m - 1) as nat);
    } else if m > 0 {
        lemma_pow2_unfold(m);
        lemma_pow2_grows((m - 1) as nat, (m - 1) as nat);
    }
}

/// The delay before attempt `attempt`, in milliseconds.
pub fn retry_millis(attempt: u32) -> (out: u64)
    ensures
        out == retry_wait(attempt),
{
    let doublings: u32 = if attempt == 0 {
        0
    } else {
        attempt - 1
    };
    proof {
        lemma2_to64();
    }
    if doublings >= 32 {
        proof {
            lemma_pow2_grows(32, doublings as nat);
        }
        return RETRY_BASE_MS * 0xffff_ffff;
    }
    let mut factor: u64 = 1;
    let mut k: u32 = 0;
    while k < doublings
        invariant
            k <= doublings < 32,
            factor == pow2(k as nat),
            factor <= 0x8000_0000,
        decreases doublings - k,
    {
        proof {
            lemma2_to64();
            lemma_pow2_unfold((k + 1) as nat);
            lemma_pow2_grows((k + 1) as nat, 31);
        }
        factor = factor * 2;
        k += 1;
    }
    RETRY_BASE_MS * factor
}

/// What `Duration::from_millis` makes of a number of milliseconds.
pub uninterp spec fn duration_of_millis(millis: u64) -> Duration;

/// How many whole milliseconds a `Duration` has, as `Duration::as_millis` counts them.
pub uninterp spec fn millis_of(duration: Duration) -> nat;

/// Trusted: `std::time::Duration::from_millis`, whose result depends on the number alone and has that
/// many milliseconds.
#[verifier::external_body]
fn wait_of(millis: u64) -> (out: Duration)
    ensures
        out == duration_of_millis(millis),
        millis_of(out) == millis,
{
    Duration::from_millis(millis)
}

/// The delay before attempt `attempt` (1-based): 500 ms, then 1 s, then 2 s.
pub fn retry_delay(attempt: u32) -> (out: Duration)
    ensures
        retry_wait(attempt) <= u64::MAX,
        millis_of(out) == retry_wait(attempt),
        out == duration_of_millis(retry_wait(attempt) as u64),
{
    wait_of(retry_millis(attempt))
}

/// What to do about a request that failed.
#[derive(Debug, Clone, Copy, PartialEq, Eq, Structural)]
pub enum Retry {
    /// Report the failure: sending again would repeat it, or would repeat what was already shown.
    Report,
    /// Wait this many milliseconds, then send the attempt of this number.
    Again { millis: u64, attempt: u32 },
}

/// The rule behind a retry.
pub open spec fn retry_rule(attempt: u32, error: ApiErrorView, emitted: bool) -> Retry {
    if attempt >= MAX_ATTEMPTS || !error.worth_retrying(emitted) {
        Retry::Report
    } else {
        Retry::Again { millis: retry_wait(attempt) as u64, attempt: (attempt + 1) as u32 }
    }
}

/// What to do once attempt `attempt` has failed.
pub fn after_failure(attempt: u32, error: &ApiError, emitted: bool) -> (out: Retry)
    ensures
        out == retry_rule(attempt, error@, emitted),
{
    if attempt >= MAX_ATTEMPTS || !error.worth_retrying(emitted) {
        Retry::Report
    } else {
        Retry::Again { millis: retry_millis(attempt), attempt: attempt + 1 }
    }
}

// ---------------------------------------------------------------------------------------------
// The client

/// What a request is built from: a configuration that has a key.
#[derive(Debug)]
pub struct Client {
    config: ClientConfig,
}

impl View for Client {
    type V = ClientConfigView;

    closed spec fn view(&self) -> ClientConfigView {
        self.config@
    }
}

/// A text without the slashes at its end.
pub open spec fn strip_slashes(url: Seq<char>) -> Seq<char>
    decreases url.len(),
{
    if url.len() > 0 && url.last() == '/' {
        strip_slashes(url.drop_last())
    } else {
        url
    }
}

/// Where a chat completion is posted.
pub open spec fn endpoint_of(config: ClientConfigView) -> Seq<char> {
    strip_slashes(config.base_url) + "/chat/completions"@
}

/// The request body, as the API documents it.
pub open spec fn body_of(
    config: ClientConfigView,
    messages: Seq<ChatMessageView>,
    tools: Seq<ToolSpecView>,
) -> JsonView {
    JsonView::Object(
        seq![
            ("model"@, JsonView::Text(config.model)),
            (
                "messages"@,
                JsonView::List(Seq::new(messages.len(), |i: int| messages[i].json())),
            ),
            ("stream"@, JsonView::Bool(true)),
            (
                "stream_options"@,
                JsonView::Object(seq![("include_usage"@, JsonView::Bool(true))]),
            ),
        ] + if tools.len() == 0 {
            Seq::empty()
        } else {
            seq![("tools"@, JsonView::List(Seq::new(tools.len(), |i: int| tools[i].json())))]
        },
    )
}

impl Client {
    /// A client without a key is refused before it is built.
    pub fn new(config: ClientConfig) -> (out: Result<Self, ApiError>)
        ensures
            blank(config@.api_key) ==> out is Err && out->Err_0@ == ApiErrorView::MissingKey(
                config@.model,
            ),
            !blank(config@.api_key) ==> out is Ok && out->Ok_0@ == config@,
    {
        if is_blank(&config.api_key) {
            return Err(ApiError::MissingKey(copy(&config.model)));
        }
        Ok(Client { config })
    }

    pub fn model(&self) -> (out: &str)
        ensures
            out@ == self@.model,
    {
        self.config.model.as_str()
    }

    /// The key a request carries.
    pub fn api_key(&self) -> (out: &str)
        ensures
            out@ == self@.api_key,
    {
        self.config.api_key.as_str()
    }

    /// Where a chat completion is posted, with the base URL's trailing slash tolerated.
    pub fn endpoint(&self) -> (out: String)
        ensures
            out@ == endpoint_of(self@),
    {
        let mut url = chars_of(&self.config.base_url);
        while url.len() > 0 && url[url.len() - 1] == '/'
            invariant
                strip_slashes(url@) == strip_slashes(self.config.base_url@),
            decreases url@.len(),
        {
            url.pop();
        }
        let mut out = string_of(url.as_slice());
        out.append("/chat/completions");
        out
    }

    /// The request body, as the API documents it.
    ///
    /// `stream_options.include_usage` is what makes the accounting arrive at all: without it the
    /// stream ends without a usage chunk and the turn's cost is unknown. A request with no tools
    /// carries no empty array of them.
    pub fn body(&self, messages: &[ChatMessage], tools: &[ToolSpec]) -> (out: Json)
        ensures
            out@ == body_of(
                self@,
                crate::message::message_views(messages@),
                spec_views(tools@),
            ),
    {
        let ghost said = crate::message::message_views(messages@);
        let ghost offered = spec_views(tools@);
        let mut turns: Vec<Json> = Vec::new();
        let mut i: usize = 0;
        while i < messages.len()
            invariant
                i <= messages@.len(),
                turns@.len() == i,
                said == crate::message::message_views(messages@),
                forall|k: int| 0 <= k < i ==> (#[trigger] turns@[k])@ == said[k].json(),
            decreases messages@.len() - i,
        {
            turns.push(messages[i].to_json());
            i += 1;
        }
        let mut options = no_entries();
        put(&mut options, "include_usage", Json::Bool(true));
        let ghost asked = entry_views(options@);
        let mut entries = no_entries();
        put(&mut entries, "model", text(&self.config.model));
        put(&mut entries, "messages", list(turns));
        put(&mut entries, "stream", Json::Bool(true));
        put(&mut entries, "stream_options", object(options));
        if tools.len() > 0 {
            let mut offers: Vec<Json> = Vec::new();
            let mut k: usize = 0;
            while k < tools.len()
                invariant
                    k <= tools@.len(),
                    offers@.len() == k,
                    offered == spec_views(tools@),
                    forall|j: int| 0 <= j < k ==> (#[trigger] offers@[j])@ == offered[j].json(),
                decreases tools@.len() - k,
            {
                offers.push(tools[k].to_json());
                k += 1;
            }
            assert(item_views(offers@) =~= Seq::new(offered.len(), |i: int| offered[i].json()));
            put(&mut entries, "tools", list(offers));
        }
        assert(item_views(turns@) =~= Seq::new(said.len(), |i: int| said[i].json()));
        assert(asked =~= seq![("include_usage"@, JsonView::Bool(true))]);
        assert(entry_views(entries@) =~= body_of(self@, said, offered)->Object_0);
        object(entries)
    }
}

// ---------------------------------------------------------------------------------------------
// Reading the answer

/// What a payload turns out to be: the events it carries, or what is wrong with it.
pub open spec fn payload_events(payload: Seq<char>) -> Result<Seq<StreamEventView>, Seq<char>> {
    if trim(payload) == "[DONE]"@ {
        Ok(seq![StreamEventView::Finished(FinishReasonView::Stop)])
    } else {
        match json_parse(payload) {
            Ok(value) => Ok(delta_events(value)),
            Err(error) => Err(error),
        }
    }
}

/// What a run of payloads comes to: the events of those before the first that cannot be read, and
/// what is wrong with that one.
#[verifier::ext_equal]
pub struct ReadView {
    pub events: Seq<StreamEventView>,
    pub error: Option<Seq<char>>,
}

pub open spec fn read_payloads(payloads: Seq<Seq<char>>) -> ReadView
    decreases payloads.len(),
{
    if payloads.len() == 0 {
        ReadView { events: Seq::empty(), error: None }
    } else {
        let before = read_payloads(payloads.drop_last());
        if before.error is Some {
            before
        } else {
            match payload_events(payloads.last()) {
                Ok(events) => ReadView { events: before.events + events, error: None },
                Err(error) => ReadView { events: before.events, error: Some(error) },
            }
        }
    }
}

/// What one chunk of an answer brought.
#[derive(Debug)]
pub struct ChunkRead {
    /// The events to hand on, in order. Any event at all means the answer has started.
    pub events: Vec<StreamEvent>,
    /// What ended the reading, once the events before it have been handed on.
    pub error: Option<ApiError>,
}

proof fn lemma_error_stays(payloads: Seq<Seq<char>>, n: int)
    requires
        0 <= n <= payloads.len(),
        read_payloads(payloads.take(n)).error is Some,
    ensures
        read_payloads(payloads) == read_payloads(payloads.take(n)),
    decreases payloads.len() - n,
{
    if n < payloads.len() {
        assert(payloads.take(n + 1).drop_last() =~= payloads.take(n));
        lemma_error_stays(payloads, n + 1);
    } else {
        assert(payloads.take(n) =~= payloads);
    }
}

/// Read one chunk of an answer.
///
/// The bytes are read lossily on purpose: a chunk boundary can split a multi-byte character, and
/// dropping the whole chunk because of that would lose the answer.
pub fn read_chunk(buffer: &mut SseBuffer, chunk: &[u8]) -> (out: ChunkRead)
    ensures
        final(buffer)@ == old(buffer)@.after(lossy(chunk@)),
        ({
            let want = read_payloads(old(buffer)@.read(lossy(chunk@)).payloads);
            &&& event_views(out.events@) == want.events
            &&& match (out.error, want.error) {
                (Some(error), Some(text)) => error@ == ApiErrorView::Stream(text),
                (None, None) => true,
                _ => false,
            }
        }),
{
    let words = lossy_text(chunk);
    let payloads = buffer.push(&words);
    let ghost all = views(payloads@);
    let mut events: Vec<StreamEvent> = Vec::new();
    let mut i: usize = 0;
    proof {
        assert(all.take(0) =~= Seq::<Seq<char>>::empty());
        assert(event_views(events@) =~= Seq::<StreamEventView>::empty());
    }
    while i < payloads.len()
        invariant
            i <= payloads@.len(),
            all == views(payloads@),
            read_payloads(all.take(i as int)) == (ReadView {
                events: event_views(events@),
                error: None,
            }),
            all == old(buffer)@.read(lossy(chunk@)).payloads,
            buffer@ == old(buffer)@.after(lossy(chunk@)),
        decreases payloads@.len() - i,
    {
        assert(all.take(i + 1).drop_last() =~= all.take(i as int));
        assert(all.take(i + 1).last() == payloads@[i as int]@);
        match parse_delta(&payloads[i]) {
            Ok(more) => {
                let ghost before = event_views(events@);
                let ghost added = event_views(more@);
                let mut more = more;
                events.append(&mut more);
                assert(event_views(events@) =~= before + added);
                assert(read_payloads(all.take(i + 1)).events =~= event_views(events@));
            },
            Err(error) => {
                proof {
                    lemma_error_stays(all, i + 1);
                }
                return ChunkRead { events, error: Some(error) };
            },
        }
        i += 1;
    }
    assert(all.take(all.len() as int) =~= all);
    ChunkRead { events, error: None }
}

// ---------------------------------------------------------------------------------------------
// Laws

/// Once anything has been shown, a failure is reported and never retried.
pub proof fn law_a_started_answer_is_never_retried(attempt: u32, error: ApiErrorView)
    ensures
        retry_rule(attempt, error, true) == Retry::Report,
{
}

/// A turn is sent a bounded number of times: every retry is a later attempt, and none comes after
/// the last one allowed.
pub proof fn law_retries_end(attempt: u32, error: ApiErrorView, emitted: bool)
    ensures
        match retry_rule(attempt, error, emitted) {
            Retry::Report => true,
            Retry::Again { attempt: next, .. } => attempt < next <= MAX_ATTEMPTS,
        },
        attempt >= MAX_ATTEMPTS ==> retry_rule(attempt, error, emitted) == Retry::Report,
{
}

/// The client's own mistakes are reported at once: a 4xx other than a rate limit, and a key that
/// is not there.
pub proof fn law_our_own_mistakes_are_not_retried(attempt: u32, status: u16, body: Seq<char>)
    requires
        400 <= status < 500,
        status != 429,
    ensures
        retry_rule(attempt, ApiErrorView::Status { status, body }, false) == Retry::Report,
        retry_rule(attempt, ApiErrorView::MissingKey(body), false) == Retry::Report,
{
}

/// A longer series of failures never waits less.
pub proof fn law_the_backoff_never_shrinks(earlier: u32, later: u32)
    requires
        earlier <= later,
    ensures
        RETRY_BASE_MS <= retry_wait(earlier) <= retry_wait(later) <= RETRY_BASE_MS * u32::MAX,
{
    let a: nat = if earlier == 0 {
        0
    } else {
        (earlier - 1) as nat
    };
    let b: nat = if later == 0 {
        0
    } else {
        (later - 1) as nat
    };
    lemma_pow2_grows(a, b);
}

/// Every request asks for streaming and for the usage chunk, and one without tools carries no
/// `tools` at all.
pub proof fn law_the_body_asks_for_the_accounting(
    config: ClientConfigView,
    messages: Seq<ChatMessageView>,
    tools: Seq<ToolSpecView>,
)
    ensures
        body_of(config, messages, tools).get("stream"@) == Some(JsonView::Bool(true)),
        body_of(config, messages, tools).get_in("stream_options"@, "include_usage"@) == Some(
            JsonView::Bool(true),
        ),
        body_of(config, messages, tools).get("tools"@) is Some <==> tools.len() > 0,
{
    reveal_strlit("model");
    reveal_strlit("messages");
    reveal_strlit("stream");
    reveal_strlit("stream_options");
    reveal_strlit("include_usage");
    reveal_strlit("tools");
    reveal_with_fuel(JsonView::position, 7);
    let entries = body_of(config, messages, tools)->Object_0;
    assert(entries[0].0 == "model"@ && entries[1].0 == "messages"@);
    assert(entries[2].0 == "stream"@ && entries[3].0 == "stream_options"@);
    assert("model"@.len() == 5 && "messages"@.len() == 8 && "stream"@.len() == 6);
    assert("stream_options"@.len() == 14 && "tools"@.len() == 5);
    assert("model"@[0] == 'm' && "tools"@[0] == 't');
}

proof fn lemma_body_entries(
    config: ClientConfigView,
    messages: Seq<ChatMessageView>,
    tools: Seq<ToolSpecView>,
)
    ensures
        body_of(config, messages, tools).get("model"@) == Some(JsonView::Text(config.model)),
        body_of(config, messages, tools).get("messages"@) == Some(
            JsonView::List(Seq::new(messages.len(), |i: int| messages[i].json())),
        ),
        tools.len() > 0 ==> body_of(config, messages, tools).get("tools"@) == Some(
            JsonView::List(Seq::new(tools.len(), |i: int| tools[i].json())),
        ),
{
    reveal_strlit("model");
    reveal_strlit("messages");
    reveal_strlit("stream");
    reveal_strlit("stream_options");
    reveal_strlit("tools");
    reveal_with_fuel(JsonView::position, 7);
    let entries = body_of(config, messages, tools)->Object_0;
    assert(entries[0].0 == "model"@ && entries[1].0 == "messages"@);
    assert(entries[2].0 == "stream"@ && entries[3].0 == "stream_options"@);
    assert("model"@.len() == 5 && "messages"@.len() == 8 && "stream"@.len() == 6);
    assert("stream_options"@.len() == 14 && "tools"@.len() == 5);
    assert("model"@[0] == 'm' && "tools"@[0] == 't');
    if tools.len() > 0 {
        assert(entries[4].0 == "tools"@);
    }
}

/// The model is sent the whole conversation, in its order: under `messages` stands a list as long as
/// the conversation, and its i-th item, read back, is the i-th message.
pub proof fn law_the_conversation_is_sent_in_its_order(
    config: ClientConfigView,
    messages: Seq<ChatMessageView>,
    tools: Seq<ToolSpecView>,
)
    ensures
        body_of(config, messages, tools).get("model"@) == Some(JsonView::Text(config.model)),
        body_of(config, messages, tools).get("messages"@) matches Some(JsonView::List(items))
            && items.len() == messages.len() && forall|i: int|
            0 <= i < items.len() ==> message_of(#[trigger] items[i]) == Some(messages[i]),
{
    lemma_body_entries(config, messages, tools);
    let items = body_of(config, messages, tools).get("messages"@)->0->List_0;
    assert forall|i: int| 0 <= i < items.len() implies message_of(#[trigger] items[i]) == Some(
        messages[i],
    ) by {
        let none = Seq::<(Seq<char>, JsonView)>::empty();
        crate::message::law_a_message_round_trips(messages[i], none);
        assert(none + messages[i].json()->Object_0 =~= messages[i].json()->Object_0);
    }
}

/// The model is told of every tool, in the order they were given: each under its name, with what it
/// is for and what it may be passed.
pub proof fn law_every_tool_is_offered_in_its_order(
    config: ClientConfigView,
    messages: Seq<ChatMessageView>,
    tools: Seq<ToolSpecView>,
)
    requires
        tools.len() > 0,
    ensures
        body_of(config, messages, tools).get("tools"@) matches Some(JsonView::List(items))
            && items.len() == tools.len() && forall|i: int|
            0 <= i < items.len() ==> {
                &&& (#[trigger] items[i]).get("type"@) == Some(JsonView::Text("function"@))
                &&& items[i].get_in("function"@, "name"@) == Some(JsonView::Text(tools[i].name))
                &&& items[i].get_in("function"@, "description"@) == Some(
                    JsonView::Text(tools[i].description),
                )
                &&& items[i].get_in("function"@, "parameters"@) == Some(tools[i].parameters)
            },
{
    lemma_body_entries(config, messages, tools);
    reveal_strlit("type");
    reveal_strlit("function");
    reveal_strlit("name");
    reveal_strlit("description");
    reveal_strlit("parameters");
    assert("type"@.len() == 4 && "function"@.len() == 8 && "name"@.len() == 4);
    assert("description"@.len() == 11 && "parameters"@.len() == 10);
    let items = body_of(config, messages, tools).get("tools"@)->0->List_0;
    assert forall|i: int| 0 <= i < items.len() implies {
        &&& (#[trigger] items[i]).get("type"@) == Some(JsonView::Text("function"@))
        &&& items[i].get_in("function"@, "name"@) == Some(JsonView::Text(tools[i].name))
        &&& items[i].get_in("function"@, "description"@) == Some(
            JsonView::Text(tools[i].description),
        )
        &&& items[i].get_in("function"@, "parameters"@) == Some(tools[i].parameters)
    } by {
        reveal_with_fuel(JsonView::position, 4);
        assert(items[i] == tools[i].json());
        let entries = tools[i].json()->Object_0;
        assert(entries[0].0 == "type"@ && entries[1].0 == "function"@);
        let inner = entries[1].1->Object_0;
        assert(inner[0].0 == "name"@ && inner[1].0 == "description"@ && inner[2].0
            == "parameters"@);
    }
}

/// What may pass is sent again, as the next attempt: before anything has been shown and before the
/// last attempt, a request that got no answer, one that was turned away for the load, one that the
/// server failed on and a stream that could not be read. A fault of another kind is reported.
pub proof fn law_what_may_pass_is_sent_again(attempt: u32, error: ApiErrorView)
    requires
        attempt < MAX_ATTEMPTS,
    ensures
        ({
            let again = match error {
                ApiErrorView::Http { timeout, connect, request, .. } => timeout || connect
                    || request,
                ApiErrorView::Status { status, .. } => status == 429 || 500 <= status,
                ApiErrorView::Stream(_) => true,
                ApiErrorView::MissingKey(_) => false,
            };
            match retry_rule(attempt, error, false) {
                Retry::Again { millis, attempt: next } => again && next == attempt + 1
                    && millis == retry_wait(attempt),
                Retry::Report => !again,
            }
        }),
{
    law_the_backoff_never_shrinks(attempt, attempt);
}

/// The first wait is half a second and each further one twice the one before, as long as the factor
/// fits.
pub proof fn law_the_wait_doubles(attempt: u32)
    requires
        1 <= attempt < 32,
    ensures
        retry_wait(0) == 500,
        retry_wait(1) == 500,
        retry_wait((attempt + 1) as u32) == 2 * retry_wait(attempt),
{
    lemma2_to64();
    lemma_pow2_unfold(attempt as nat);
    lemma_pow2_grows(attempt as nat, 31);
    lemma_pow2_grows((attempt - 1) as nat, 31);
}

/// An answer is refused exactly when its status is not one of success; the error then says which
/// status it was, with the provider's explanation without the white space around it.
pub proof fn law_only_a_success_is_read(status: u16, body: Seq<char>)
    ensures
        refusal_view(status, body) is None <==> 200 <= status <= 299,
        refusal_view(status, body) matches Some(error) ==> error == (ApiErrorView::Status {
            status,
            body: trim(body),
        }),
{
}

/// Slashes at the end of the base address make no difference, and one without them is followed by
/// the path of a chat completion.
pub proof fn law_trailing_slashes_make_no_difference(config: ClientConfigView, url: Seq<char>)
    ensures
        endpoint_of(ClientConfigView { base_url: url.push('/'), ..config }) == endpoint_of(
            ClientConfigView { base_url: url, ..config },
        ),
        url.len() == 0 || url.last() != '/' ==> endpoint_of(
            ClientConfigView { base_url: url, ..config },
        ) == url + "/chat/completions"@,
{
    assert(url.push('/').drop_last() =~= url);
}

/// Payloads are read one after the other: the events of the later ones follow those of the earlier,
/// and once one cannot be read nothing behind it is.
pub proof fn law_payloads_are_read_one_after_the_other(a: Seq<Seq<char>>, b: Seq<Seq<char>>)
    ensures
        read_payloads(a).error is Some ==> read_payloads(a + b) == read_payloads(a),
        read_payloads(a).error is None ==> read_payloads(a + b).error == read_payloads(b).error
            && read_payloads(a + b).events == read_payloads(a).events + read_payloads(b).events,
    decreases b.len(),
{
    if b.len() == 0 {
        assert(a + b =~= a);
        assert(read_payloads(a).events + Seq::<StreamEventView>::empty() =~= read_payloads(
            a,
        ).events);
    } else {
        law_payloads_are_read_one_after_the_other(a, b.drop_last());
        assert((a + b).drop_last() =~= a + b.drop_last());
        assert((a + b).last() == b.last());
        if read_payloads(a).error is None {
            assert(read_payloads(a + b).events =~= read_payloads(a).events + read_payloads(
                b,
            ).events);
        }
    }
}

/// The end of the stream is a payload of its own and stops the turn; any other is read as JSON,
/// whose events it carries, or tells what is wrong with it.
pub proof fn law_a_payload_is_the_end_or_json(payload: Seq<char>)
    ensures
        trim(payload) == "[DONE]"@ ==> read_payloads(seq![payload]) == (ReadView {
            events: seq![StreamEventView::Finished(FinishReasonView::Stop)],
            error: None,
        }),
        trim(payload) != "[DONE]"@ ==> match json_parse(payload) {
            Ok(value) => read_payloads(seq![payload]) == (ReadView {
                events: delta_events(value),
                error: None,
            }),
            Err(error) => read_payloads(seq![payload]) == (ReadView {
                events: Seq::empty(),
                error: Some(error),
            }),
        },
{
    let one = seq![payload];
    assert(one.drop_last() =~= Seq::<Seq<char>>::empty());
    assert(one.last() == payload);
    reveal_with_fuel(read_payloads, 2);
    let none = Seq::<StreamEventView>::empty();
    match payload_events(payload) {
        Ok(events) => {
            assert(none + events =~= events);
        },
        Err(_) => {},
    }
}

/// What a user is told of a failure names what failed: the fault, the status with the provider's own
/// words, the variable a key is looked for in, or what could not be read.
pub proof fn law_a_failure_says_what_failed(error: ApiErrorView)
    ensures
        match error {
            ApiErrorView::Http { message, .. } => error.message() == "请求失败: "@ + message,
            ApiErrorView::Status { status, body } => error.message() == "DeepSeek 返回 "@ + decimal(
                status as nat,
            ) + ": "@ + body,
            ApiErrorView::MissingKey(name) => error.message() == "没有 API key：把 "@ + name
                + " 设成你的 DeepSeek key，或在 config.toml 里改 api_key_env"@,
            ApiErrorView::Stream(text) => error.message() == "流里的 JSON 读不出来: "@ + text,
        },
{
}

} // verus!
