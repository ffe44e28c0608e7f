//! The API: messages, the stream, the accounting, the request and its retries.

use std::time::Duration;

use jmds::client::{
    after_failure, read_chunk, refusal, retry_delay, retry_millis, ApiError, Client, ClientConfig,
    HttpFault, Retry, ToolSpec, MAX_ATTEMPTS,
};
use jmds::json::{parse_json, write_json, Json};
use jmds::message::{
    enforce_reasoning_replay, requires_reasoning_replay, ChatMessage, Role, ToolCall,
    REASONING_REPLAY_PLACEHOLDER,
};
use jmds::stream::{describe_error, parse_delta, read_delta, FinishReason, SseBuffer, StreamEvent};
use jmds::usage::Usage;

fn json(text: &str) -> Json {
    parse_json(text).expect("a document")
}

fn client() -> Client {
    Client::new(ClientConfig::new("https://api.deepseek.com/", "deepseek-chat", "sk-test"))
        .expect("a client with a key builds")
}

fn at<'a>(value: &'a Json, path: &[&str]) -> &'a Json {
    let mut value = value;
    for key in path {
        value = match key.parse::<usize>() {
            Ok(index) => match value {
                Json::List(items) => &items[index],
                other => panic!("not a list: {other:?}"),
            },
            Err(_) => value.get(key).expect("a key"),
        };
    }
    value
}

fn text(words: &str) -> Json {
    Json::Text(words.to_string())
}

// Messages ------------------------------------------------------------------------------------

#[test]
fn a_tool_call_round_trips_in_the_shape_the_api_uses() {
    let call = ToolCall::new("call_1", "read", "{\"path\":\"src/main.rs\"}");
    let value = call.to_json();
    assert_eq!(
        value,
        json(
            r#"{"id":"call_1","type":"function",
                "function":{"name":"read","arguments":"{\"path\":\"src/main.rs\"}"}}"#
        )
    );
    assert_eq!(ToolCall::from_json(&value).unwrap(), call);
}

#[test]
fn empty_fields_are_left_out_of_the_request() {
    assert_eq!(ChatMessage::user("hi").to_json(), json(r#"{"role":"user","content":"hi"}"#));
}

#[test]
fn a_tool_answer_names_the_call_it_answers() {
    let value = ChatMessage::tool("call_1", "3 lines").to_json();
    let Json::Object(entries) = &value else { panic!("an object") };
    assert_eq!(entries.len(), 3);
    assert_eq!(at(&value, &["role"]), &text("tool"));
    assert_eq!(at(&value, &["tool_call_id"]), &text("call_1"));
    assert_eq!(at(&value, &["content"]), &text("3 lines"));
}

#[test]
fn reasoning_is_replayed_only_where_it_is_owed() {
    let mut messages = vec![
        ChatMessage::user("do it"),
        ChatMessage::assistant_with_tools("", vec![ToolCall::new("c1", "read", "{}")]),
        ChatMessage::tool("c1", "ok"),
        ChatMessage::assistant("done"),
    ];
    assert_eq!(enforce_reasoning_replay(&mut messages, "deepseek-chat"), 1);

    assert_eq!(
        messages[1].reasoning_content.as_deref(),
        Some(REASONING_REPLAY_PLACEHOLDER)
    );
    assert!(messages[3].reasoning_content.is_none());
    assert!(messages[0].reasoning_content.is_none());
}

#[test]
fn reasoning_that_was_recorded_is_left_exactly_as_it_was() {
    let mut turn = ChatMessage::assistant_with_tools("", vec![ToolCall::new("c1", "read", "{}")]);
    turn.reasoning_content = Some("first I look, then I leap".into());
    let mut messages = vec![turn];
    assert_eq!(enforce_reasoning_replay(&mut messages, "deepseek-reasoner"), 0);
    assert_eq!(
        messages[0].reasoning_content.as_deref(),
        Some("first I look, then I leap")
    );
}

#[test]
fn a_turn_whose_reasoning_is_blank_is_treated_as_unrecorded() {
    let mut turn = ChatMessage::assistant_with_tools("", vec![ToolCall::new("c1", "read", "{}")]);
    turn.reasoning_content = Some("   \n".into());
    let mut messages = vec![turn];
    assert_eq!(enforce_reasoning_replay(&mut messages, "deepseek-chat"), 1);
    assert_eq!(
        messages[0].reasoning_content.as_deref(),
        Some(REASONING_REPLAY_PLACEHOLDER)
    );
}

#[test]
fn nothing_is_patched_for_a_model_that_does_not_ask_for_it() {
    let mut messages = vec![ChatMessage::assistant_with_tools(
        "",
        vec![ToolCall::new("c1", "read", "{}")],
    )];
    assert_eq!(enforce_reasoning_replay(&mut messages, "some-other-model"), 0);
    assert!(messages[0].reasoning_content.is_none());
}

#[test]
fn the_replay_rule_covers_deepseek_and_defaults_to_the_safe_side() {
    for model in ["deepseek-chat", "deepseek-reasoner", "deepseek-v4", "DeepSeek-R1"] {
        assert!(requires_reasoning_replay(model), "{model}");
    }
    assert!(requires_reasoning_replay("deepseek-something-new"));
    assert!(!requires_reasoning_replay("gpt-4o"));
}

#[test]
fn patching_twice_patches_nothing_more() {
    let mut messages = vec![
        ChatMessage::assistant_with_tools("a", vec![ToolCall::new("c1", "read", "{}")]),
        ChatMessage::user("b"),
        ChatMessage::assistant_with_tools("c", vec![ToolCall::new("c2", "bash", "{}")]),
    ];
    assert_eq!(enforce_reasoning_replay(&mut messages, "deepseek-chat"), 2);
    assert_eq!(enforce_reasoning_replay(&mut messages, "deepseek-chat"), 0);
    assert_eq!(messages[2].content.as_deref(), Some("c"));
}

#[test]
fn a_message_round_trips_with_everything_in_it() {
    let mut message = ChatMessage::assistant_with_tools(
        "line\nand \"quotes\"",
        vec![ToolCall::new("c1", "read", "{}"), ToolCall::new("c2", "bash", "{\"a\":1}")],
    );
    message.reasoning_content = Some("\u{1F600} \t".into());
    message.tool_call_id = Some("x".into());
    assert_eq!(ChatMessage::from_json(&message.to_json()), Some(message.duplicate()));
    let written = write_json(&message.to_json());
    assert!(!written.contains('\n'));
    assert_eq!(ChatMessage::from_json(&json(&written)), Some(message));
}

#[test]
fn what_is_left_out_of_a_message_is_missing_and_what_is_wrong_makes_it_none() {
    let bare = ChatMessage::from_json(&json(r#"{"role":"assistant","content":null}"#)).unwrap();
    assert_eq!(bare.role, Role::Assistant);
    assert_eq!(bare.content, None);
    assert!(bare.tool_calls.is_empty());
    for wrong in [
        r#"{"content":"x"}"#,
        r#"{"role":"robot"}"#,
        r#"{"role":"user","content":1}"#,
        r#"{"role":"user","tool_calls":null}"#,
        r#"{"role":"user","tool_calls":[{"id":"x"}]}"#,
        r#"[]"#,
    ] {
        assert_eq!(ChatMessage::from_json(&json(wrong)), None, "{wrong}");
    }
    let call = json(r#"{"id":"c","function":{"name":"n","arguments":"a"}}"#);
    assert_eq!(ToolCall::from_json(&call).unwrap().kind, "function");
}

// The stream ----------------------------------------------------------------------------------

fn content(events: &[StreamEvent]) -> String {
    events
        .iter()
        .filter_map(|event| match event {
            StreamEvent::Content(text) => Some(text.as_str()),
            _ => None,
        })
        .collect()
}

#[test]
fn an_event_split_across_chunks_is_read_once_it_is_whole() {
    let mut buffer = SseBuffer::new();
    assert!(buffer.push("data: {\"choi").is_empty());
    assert!(buffer.push("ces\":[{\"delta\":").is_empty());
    let payloads = buffer.push("{\"content\":\"hi\"}}]}\n\n");
    assert_eq!(payloads.len(), 1);
    let events = parse_delta(&payloads[0]).unwrap();
    assert_eq!(content(&events), "hi");
}

#[test]
fn two_events_in_one_chunk_come_out_as_two() {
    let mut buffer = SseBuffer::new();
    let payloads = buffer.push("data: a\n\ndata: b\n\n");
    assert_eq!(payloads, vec!["a".to_string(), "b".to_string()]);
}

#[test]
fn carriage_returns_and_keep_alives_do_not_become_content() {
    let mut buffer = SseBuffer::new();
    let payloads = buffer.push(": keep-alive\r\n\r\ndata: {\"x\":1}\r\n\r\n");
    assert_eq!(payloads, vec!["{\"x\":1}".to_string()]);
}

#[test]
fn a_field_this_api_does_not_use_is_ignored() {
    let mut buffer = SseBuffer::new();
    let payloads = buffer.push("event: message\ndata: {\"x\":1}\n\n");
    assert_eq!(payloads, vec!["{\"x\":1}".to_string()]);
}

#[test]
fn any_cut_of_a_stream_gives_the_same_payloads() {
    let stream = "data: one\r\n\r\n: ping\n\ndata:two\ndata: lines\n\nevent: x\ndata: 末\n\ndata: open";
    let mut whole = SseBuffer::new();
    let expected = whole.push(stream);
    assert_eq!(expected, vec!["one", "two\nlines", "末"]);
    let chars: Vec<char> = stream.chars().collect();
    for cut in 0..=chars.len() {
        let mut buffer = SseBuffer::new();
        let mut payloads = buffer.push(&chars[..cut].iter().collect::<String>());
        payloads.extend(buffer.push(&chars[cut..].iter().collect::<String>()));
        assert_eq!(payloads, expected, "{cut}");
    }
}

#[test]
fn the_done_sentinel_ends_the_stream_rather_than_parsing_as_json() {
    let events = parse_delta("[DONE]").unwrap();
    assert_eq!(events, vec![StreamEvent::Finished(FinishReason::Stop)]);
}

#[test]
fn a_first_chunk_that_only_names_the_role_carries_nothing() {
    let events = parse_delta(r#"{"choices":[{"delta":{"role":"assistant"}}]}"#).unwrap();
    assert!(events.is_empty(), "{events:?}");
}

#[test]
fn answer_text_and_reasoning_arrive_as_separate_events() {
    let payload = r#"{"choices":[{"delta":{"reasoning_content":"hmm","content":"answer"}}]}"#;
    let events = parse_delta(payload).unwrap();
    assert_eq!(
        events,
        vec![
            StreamEvent::Content("answer".into()),
            StreamEvent::Reasoning("hmm".into()),
        ]
    );
}

#[test]
fn an_empty_delta_is_not_an_empty_string_of_content() {
    let events = parse_delta(r#"{"choices":[{"delta":{"content":""}}]}"#).unwrap();
    assert!(events.is_empty(), "{events:?}");
}

#[test]
fn tool_call_fragments_keep_their_index_and_accumulate() {
    let first = parse_delta(
        r#"{"choices":[{"delta":{"tool_calls":[{"index":0,"id":"call_1","function":{"name":"read","arguments":"{\"pa"}}]}}]}"#,
    )
    .unwrap();
    assert_eq!(
        first,
        vec![StreamEvent::ToolCallDelta {
            index: 0,
            id: Some("call_1".into()),
            name: Some("read".into()),
            arguments: Some("{\"pa".into()),
        }]
    );

    let second = parse_delta(
        r#"{"choices":[{"delta":{"tool_calls":[{"index":0,"function":{"arguments":"th\":\"a\"}"}}]}}]}"#,
    )
    .unwrap();
    assert_eq!(
        second,
        vec![StreamEvent::ToolCallDelta {
            index: 0,
            id: None,
            name: None,
            arguments: Some("th\":\"a\"}".into()),
        }]
    );
}

#[test]
fn the_final_chunk_reports_usage_and_the_reason_it_stopped() {
    let payload = r#"{"choices":[{"delta":{},"finish_reason":"tool_calls"}],
                      "usage":{"prompt_tokens":100,"prompt_cache_hit_tokens":80,"completion_tokens":7}}"#;
    let events = parse_delta(payload).unwrap();
    assert!(events.contains(&StreamEvent::Finished(FinishReason::ToolCalls)));
    assert!(events.contains(&StreamEvent::Usage(Usage {
        input_tokens: 100,
        prompt_cache_hit_tokens: 80,
        prompt_cache_miss_tokens: 20,
        output_tokens: 7,
        reasoning_tokens: 0,
    })));
}

#[test]
fn a_finish_reason_a_newer_api_added_is_kept_as_text() {
    let events =
        parse_delta(r#"{"choices":[{"delta":{},"finish_reason":"something_new"}]}"#).unwrap();
    assert_eq!(
        events,
        vec![StreamEvent::Finished(FinishReason::Other("something_new".into()))]
    );
}

#[test]
fn an_error_inside_the_stream_is_reported_with_its_code() {
    let events = parse_delta(
        r#"{"error":{"message":"context length exceeded","code":"invalid_request"}}"#,
    )
    .unwrap();
    assert_eq!(
        events,
        vec![StreamEvent::Error("context length exceeded (invalid_request)".into())]
    );
}

#[test]
fn an_unparsable_payload_is_an_error_and_not_a_panic() {
    assert!(parse_delta("{not json").is_err());
    assert!(parse_delta(r#"{"object":"chat.completion.chunk"}"#).unwrap().is_empty());
}

#[test]
fn every_reason_to_stop_is_told_apart() {
    for (name, reason) in [
        ("stop", FinishReason::Stop),
        ("length", FinishReason::Length),
        ("content_filter", FinishReason::ContentFilter),
        ("tool_calls", FinishReason::ToolCalls),
    ] {
        let payload = format!(r#"{{"choices":[{{"finish_reason":"{name}"}}]}}"#);
        assert_eq!(parse_delta(&payload).unwrap(), vec![StreamEvent::Finished(reason)]);
    }
}

#[test]
fn an_error_is_described_by_what_it_says() {
    assert_eq!(describe_error(&json(r#"{"message":"no"}"#)), "no");
    assert_eq!(describe_error(&json(r#"{"message":"no","code":"x"}"#)), "no (x)");
    assert_eq!(read_delta(&json("[1,2]")), vec![]);
}

#[test]
fn a_chunk_of_bytes_is_framed_and_read() {
    let mut buffer = SseBuffer::new();
    let bytes = "data: {\"choices\":[{\"delta\":{\"content\":\"é\"}}]}\n\ndata: {bad\n\n".as_bytes();
    let read = read_chunk(&mut buffer, bytes);
    assert_eq!(read.events, vec![StreamEvent::Content("é".into())]);
    assert!(matches!(read.error, Some(ApiError::Stream(_))));
    // Bytes that are not UTF-8 are replaced, not fatal.
    let mut buffer = SseBuffer::new();
    let read = read_chunk(&mut buffer, b"data: [DONE]\xff\n\ndata: [DONE]\n\n");
    assert!(read.events.is_empty());
    assert!(read.error.is_some());
}

// The accounting ------------------------------------------------------------------------------

#[test]
fn the_split_is_taken_as_the_api_gives_it() {
    let usage = Usage::from_json(&json(
        r#"{"prompt_tokens":1000,"prompt_cache_hit_tokens":900,"prompt_cache_miss_tokens":100,
            "completion_tokens":250,"total_tokens":1250}"#,
    ));
    assert_eq!(
        usage,
        Usage {
            input_tokens: 1000,
            prompt_cache_hit_tokens: 900,
            prompt_cache_miss_tokens: 100,
            output_tokens: 250,
            reasoning_tokens: 0,
        }
    );
}

#[test]
fn a_miss_is_derived_when_only_the_hit_is_reported() {
    let usage = Usage::from_json(&json(
        r#"{"prompt_tokens":1000,"prompt_cache_hit_tokens":850,"completion_tokens":10}"#,
    ));
    assert_eq!(usage.prompt_cache_hit_tokens, 850);
    assert_eq!(usage.prompt_cache_miss_tokens, 150);
    assert_eq!(usage.input_tokens, 1000);
}

#[test]
fn a_miss_is_derived_from_cached_tokens_when_that_is_all_there_is() {
    let usage = Usage::from_json(&json(
        r#"{"prompt_tokens":1000,"prompt_tokens_details":{"cached_tokens":640},"completion_tokens":10}"#,
    ));
    assert_eq!(usage.prompt_cache_hit_tokens, 640);
    assert_eq!(usage.prompt_cache_miss_tokens, 360);
}

#[test]
fn a_number_that_is_missing_is_read_as_a_miss_not_as_a_hit() {
    let usage = Usage::from_json(&json(r#"{"prompt_tokens":500,"completion_tokens":5}"#));
    assert_eq!(usage.prompt_cache_hit_tokens, 0);
    assert_eq!(usage.prompt_cache_miss_tokens, 500);
}

#[test]
fn reasoning_tokens_are_reported_but_never_added_to_the_output() {
    let usage = Usage::from_json(&json(
        r#"{"prompt_tokens":10,"completion_tokens":800,
            "completion_tokens_details":{"reasoning_tokens":600}}"#,
    ));
    assert_eq!(usage.output_tokens, 800, "reasoning is already inside completion");
    assert_eq!(usage.reasoning_tokens, 600);
}

#[test]
fn an_output_is_derived_from_the_total_when_completion_is_absent() {
    let usage = Usage::from_json(&json(r#"{"prompt_tokens":300,"total_tokens":380}"#));
    assert_eq!(usage.output_tokens, 80);
}

#[test]
fn a_total_smaller_than_the_prompt_cannot_wrap_around() {
    let usage = Usage::from_json(&json(r#"{"prompt_tokens":500,"total_tokens":100}"#));
    assert_eq!(usage.output_tokens, 0);
}

#[test]
fn the_hit_is_never_larger_than_the_input_it_was_taken_from() {
    let usage = Usage::from_json(&json(
        r#"{"prompt_tokens":100,"prompt_tokens_details":{"cached_tokens":999},"completion_tokens":1}"#,
    ));
    assert_eq!(usage.prompt_cache_hit_tokens, 100);
    assert_eq!(usage.prompt_cache_miss_tokens, 0);
    assert_eq!(
        usage.prompt_cache_hit_tokens + usage.prompt_cache_miss_tokens,
        usage.input_tokens
    );
}

#[test]
fn an_empty_report_is_empty_and_not_a_panic() {
    let usage = Usage::from_json(&json("{}"));
    assert!(usage.is_empty());
    let usage = Usage::from_json(&json(r#"{"prompt_tokens":-5}"#));
    assert_eq!(usage.input_tokens, 0, "a negative count is not a count");
}

// The request ---------------------------------------------------------------------------------

#[test]
fn a_client_without_a_key_is_refused_before_it_is_built() {
    let error = Client::new(ClientConfig::new("https://api.deepseek.com", "deepseek-chat", " "));
    assert!(matches!(error, Err(ApiError::MissingKey(_))));
}

#[test]
fn the_endpoint_tolerates_a_trailing_slash() {
    assert_eq!(client().endpoint(), "https://api.deepseek.com/chat/completions");
    let bare = Client::new(ClientConfig::new(
        "https://api.deepseek.com",
        "deepseek-chat",
        "sk-test",
    ))
    .unwrap();
    assert_eq!(bare.endpoint(), "https://api.deepseek.com/chat/completions");
}

#[test]
fn the_body_asks_for_streaming_and_for_the_usage_chunk() {
    let body = client().body(&[ChatMessage::user("hi")], &[]);
    assert_eq!(at(&body, &["model"]), &text("deepseek-chat"));
    assert_eq!(at(&body, &["stream"]), &Json::Bool(true));
    assert_eq!(
        at(&body, &["stream_options", "include_usage"]),
        &Json::Bool(true),
        "without this the stream ends without any accounting"
    );
    assert_eq!(at(&body, &["messages", "0", "role"]), &text("user"));
    assert!(
        body.get("tools").is_none(),
        "a request with no tools must not carry an empty array: {body:?}"
    );
}

#[test]
fn a_tool_goes_into_the_request_in_the_openai_shape() {
    let tool = ToolSpec::new("read", "read a file", json(r#"{"type":"object"}"#));
    let body = client().body(&[ChatMessage::user("hi")], &[tool]);
    assert_eq!(at(&body, &["tools", "0", "type"]), &text("function"));
    assert_eq!(at(&body, &["tools", "0", "function", "name"]), &text("read"));
    assert_eq!(
        at(&body, &["tools", "0", "function", "parameters", "type"]),
        &text("object")
    );
}

#[test]
fn a_failure_before_the_answer_may_be_retried_and_one_after_it_may_not() {
    let timeout = ApiError::Status { status: 504, body: String::new() };
    assert!(timeout.worth_retrying(false));
    assert!(
        !timeout.worth_retrying(true),
        "retrying after text has arrived would splice two answers together"
    );
}

#[test]
fn the_client_s_own_mistakes_are_not_retried() {
    for status in [400, 401, 403, 404, 422] {
        assert!(
            !ApiError::Status { status, body: String::new() }.worth_retrying(false),
            "{status}"
        );
    }
    assert!(
        !ApiError::MissingKey("deepseek-chat".into()).worth_retrying(false),
        "there is nothing to retry"
    );
}

#[test]
fn a_rate_limit_and_a_server_fault_are_retried() {
    for status in [429, 500, 502, 503] {
        assert!(
            ApiError::Status { status, body: String::new() }.worth_retrying(false),
            "{status}"
        );
    }
}

#[test]
fn the_backoff_doubles() {
    assert_eq!(retry_delay(1), Duration::from_millis(500));
    assert_eq!(retry_delay(2), Duration::from_secs(1));
    assert_eq!(retry_delay(3), Duration::from_secs(2));
    assert!(retry_delay(40) >= retry_delay(3));
}

#[test]
fn a_connection_that_broke_is_retried_before_the_answer_began() {
    let broke = |timeout, connect, request| {
        ApiError::Http(HttpFault { timeout, connect, request, message: "x".into() })
    };
    assert!(broke(true, false, false).worth_retrying(false));
    assert!(broke(false, true, false).worth_retrying(false));
    assert!(!broke(false, false, false).worth_retrying(false));
    assert!(ApiError::Stream("x".into()).worth_retrying(false));
    assert!(!ApiError::Stream("x".into()).worth_retrying(true));
}

#[test]
fn a_failure_is_tried_again_until_the_attempts_are_used_up() {
    let error = ApiError::Status { status: 503, body: String::new() };
    assert_eq!(after_failure(1, &error, false), Retry::Again { millis: 500, attempt: 2 });
    assert_eq!(after_failure(2, &error, false), Retry::Again { millis: 1000, attempt: 3 });
    assert_eq!(after_failure(MAX_ATTEMPTS, &error, false), Retry::Report);
    assert_eq!(after_failure(1, &error, true), Retry::Report);
    assert_eq!(retry_millis(1), 500);
}

#[test]
fn a_refusal_carries_what_the_api_said() {
    assert!(refusal(200, "fine").is_none());
    match refusal(401, "no key") {
        Some(ApiError::Status { status, body }) => {
            assert_eq!(status, 401);
            assert_eq!(body, "no key");
        }
        other => panic!("{other:?}"),
    }
}

#[test]
fn every_error_says_what_happened() {
    assert!(ApiError::MissingKey("deepseek-chat".into()).message().contains("deepseek-chat"));
    let status = ApiError::Status { status: 418, body: "teapot".into() }.message();
    assert!(status.contains("418") && status.contains("teapot"), "{status}");
    assert!(ApiError::Stream("cut".into()).message().contains("cut"));
    let fault = HttpFault { timeout: true, connect: false, request: false, message: "slow".into() };
    assert!(ApiError::Http(fault).message().contains("slow"));
}

// JSON ----------------------------------------------------------------------------------------

#[test]
fn a_document_is_read_into_a_tree_and_written_back() {
    let source = r#"{"a":[1,-2,true,null,"x"],"b":{}}"#;
    let value = json(source);
    assert_eq!(
        value,
        Json::Object(vec![
            (
                "a".into(),
                Json::List(vec![
                    Json::Unsigned(1),
                    Json::Negative(-2),
                    Json::Bool(true),
                    Json::Null,
                    text("x"),
                ])
            ),
            ("b".into(), Json::Object(vec![])),
        ])
    );
    assert_eq!(write_json(&value), source);
    assert!(matches!(json("1.5"), Json::Float(_)));
    assert!(parse_json("{").is_err());
}

#[test]
fn a_reported_hit_is_never_larger_than_the_input() {
    let usage =
        Usage::from_json(&json(r#"{"prompt_tokens":100,"prompt_cache_hit_tokens":999}"#));
    assert_eq!(usage.input_tokens, 100);
    assert_eq!(usage.prompt_cache_hit_tokens, 100);
    assert_eq!(usage.prompt_cache_miss_tokens, 0);
    let usage =
        Usage::from_json(&json(r#"{"prompt_tokens":100,"prompt_cache_miss_tokens":999}"#));
    assert_eq!((usage.prompt_cache_hit_tokens, usage.prompt_cache_miss_tokens), (0, 100));
}

#[test]
fn a_split_says_what_was_sent() {
    let usage = Usage::from_json(&json(
        r#"{"prompt_tokens":5,"prompt_cache_hit_tokens":30,"prompt_cache_miss_tokens":12}"#,
    ));
    assert_eq!(usage.input_tokens, 42);
    assert_eq!((usage.prompt_cache_hit_tokens, usage.prompt_cache_miss_tokens), (30, 12));
}
