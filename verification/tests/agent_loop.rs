//! The loop: a model that answers, tools that run, and the history between them.

use jmds::agent::{AgentConfig, Next, Run, Turn, DEFAULT_MAX_ROUNDS};
use jmds::event::{AgentEvent, FinishReason, TurnUsage};
use jmds::message::{ChatMessage, Role, ToolCall, REASONING_REPLAY_PLACEHOLDER};
use jmds::stream::{FinishReason as ApiFinish, StreamEvent};
use jmds::tools::set::ToolOutcome;
use jmds::usage::Usage;

/// What a run over a script came to.
struct Seen {
    events: Vec<AgentEvent>,
    calls: Vec<(String, String)>,
    requests: Vec<Vec<ChatMessage>>,
}

/// Runs the loop over a model that answers from a script and tools that answer the same way every
/// time.
fn run(
    script: Vec<Vec<StreamEvent>>,
    outcome: ToolOutcome,
    rounds: usize,
    messages: &mut Vec<ChatMessage>,
) -> Seen {
    let config = AgentConfig::new("deepseek-chat", "be brief").with_max_rounds(rounds);
    let mut script = script.into_iter();
    let mut seen = Seen { events: Vec::new(), calls: Vec::new(), requests: Vec::new() };
    let (mut run, started) = Run::start(config, messages);
    seen.events.extend(started);
    loop {
        match run.next() {
            Next::Ask => {
                seen.requests.push(messages.clone());
                let mut turn = Turn::new();
                for event in script.next().unwrap_or_default() {
                    seen.events.extend(turn.absorb(event));
                }
                seen.events.extend(run.answered(messages, &turn));
            }
            Next::Call(call) => {
                seen.calls.push((call.name().to_string(), call.arguments().to_string()));
                seen.events.extend(run.called(messages, &outcome));
            }
            Next::Stop => return seen,
        }
    }
}

fn call_delta(index: usize, id: &str, name: &str, arguments: &str) -> StreamEvent {
    StreamEvent::ToolCallDelta {
        index,
        id: Some(id.to_string()),
        name: Some(name.to_string()),
        arguments: Some(arguments.to_string()),
    }
}

fn user(text: &str) -> Vec<ChatMessage> {
    vec![ChatMessage::user(text)]
}

#[test]
fn a_plain_answer_becomes_one_assistant_message_and_its_events() {
    let mut messages = user("what is 2+2?");
    let seen = run(
        vec![vec![
            StreamEvent::Content("The answer ".into()),
            StreamEvent::Content("is 4.".into()),
            StreamEvent::Usage(Usage { output_tokens: 9, reasoning_tokens: 7, ..Usage::default() }),
            StreamEvent::Finished(ApiFinish::Stop),
        ]],
        ToolOutcome::done("", ""),
        DEFAULT_MAX_ROUNDS,
        &mut messages,
    );
    assert_eq!(messages.len(), 3, "system, user, assistant");
    assert_eq!(messages[0].role, Role::System);
    assert_eq!(messages[0].content.as_deref(), Some("be brief"));
    assert_eq!(messages[2].content.as_deref(), Some("The answer is 4."));
    assert!(messages[2].tool_calls.is_empty());
    assert_eq!(
        seen.events.first(),
        Some(&AgentEvent::TurnStarted { model: "deepseek-chat".into() })
    );
    assert!(seen.events.contains(&AgentEvent::Content("The answer ".into())));
    assert!(seen.events.contains(&AgentEvent::Usage(TurnUsage {
        completion_tokens: 9,
        reasoning_tokens: 7,
        ..TurnUsage::default()
    })));
    assert_eq!(
        seen.events.last(),
        Some(&AgentEvent::TurnFinished { reason: FinishReason::Stop })
    );
}

#[test]
fn a_tool_call_is_announced_whole_and_its_result_reaches_the_next_request() {
    let mut messages = user("what is in a.txt?");
    let seen = run(
        vec![
            vec![
                call_delta(0, "call_1", "read", "{\"path\":"),
                call_delta(0, "", "", "\"a.txt\"}"),
                StreamEvent::Finished(ApiFinish::ToolCalls),
            ],
            vec![
                StreamEvent::Content("a.txt says hello".into()),
                StreamEvent::Finished(ApiFinish::Stop),
            ],
        ],
        ToolOutcome::done("read a.txt · 1 line", "hello\n"),
        DEFAULT_MAX_ROUNDS,
        &mut messages,
    );
    assert_eq!(
        seen.calls,
        vec![("read".to_string(), "{\"path\":\"a.txt\"}".to_string())]
    );
    assert!(seen.events.contains(&AgentEvent::ToolCall {
        id: "call_1".into(),
        name: "read".into(),
        arguments: "{\"path\":\"a.txt\"}".into(),
    }));
    assert!(seen.events.contains(&AgentEvent::ToolResult {
        id: "call_1".into(),
        ok: true,
        summary: "read a.txt · 1 line".into(),
    }));
    assert_eq!(messages.len(), 5);
    assert_eq!(messages[2].role, Role::Assistant);
    assert_eq!(messages[2].tool_calls.len(), 1);
    assert_eq!(messages[3].role, Role::Tool);
    assert_eq!(messages[3].tool_call_id.as_deref(), Some("call_1"));
    assert_eq!(messages[3].content.as_deref(), Some("hello\n"));
    assert_eq!(messages[4].role, Role::Assistant);
    assert_eq!(seen.requests.len(), 2, "the model was asked twice");
}

#[test]
fn a_later_empty_fragment_does_not_erase_the_tool_the_call_is_for() {
    let mut messages = user("read it");
    let seen = run(
        vec![
            vec![
                call_delta(0, "call_1", "read", "{\"path\":"),
                call_delta(0, "", "", "\"a.txt\"}"),
                StreamEvent::Finished(ApiFinish::ToolCalls),
            ],
            vec![
                StreamEvent::Content("done".into()),
                StreamEvent::Finished(ApiFinish::Stop),
            ],
        ],
        ToolOutcome::done("ok", "x"),
        DEFAULT_MAX_ROUNDS,
        &mut messages,
    );
    assert_eq!(
        seen.calls,
        vec![("read".to_string(), "{\"path\":\"a.txt\"}".to_string())],
        "the call reached the tool with its name and its whole arguments"
    );
}

#[test]
fn a_request_after_a_tool_call_carries_the_reasoning_replay_the_model_requires() {
    let mut messages = user("go");
    let seen = run(
        vec![
            vec![
                StreamEvent::Content("looking".into()),
                call_delta(0, "call_1", "read", "{}"),
                StreamEvent::Finished(ApiFinish::ToolCalls),
            ],
            vec![
                StreamEvent::Content("done".into()),
                StreamEvent::Finished(ApiFinish::Stop),
            ],
        ],
        ToolOutcome::done("ok", "x"),
        DEFAULT_MAX_ROUNDS,
        &mut messages,
    );
    let assistant = seen.requests[1]
        .iter()
        .find(|message| message.role == Role::Assistant && !message.tool_calls.is_empty())
        .expect("the assistant's tool call is in the second request");
    assert_eq!(
        assistant.reasoning_content.as_deref(),
        Some(""),
        "an empty reasoning field, which is what the API wants when the model did not think"
    );
}

#[test]
fn only_what_was_never_recorded_is_given_the_placeholder() {
    let unrecorded =
        ChatMessage::assistant_with_tools("", vec![ToolCall::new("call_0", "read", "{}")]);
    let mut messages =
        vec![ChatMessage::user("go"), unrecorded, ChatMessage::tool("call_0", "x")];
    let thinking = vec![
        StreamEvent::Reasoning("hm".into()),
        call_delta(0, "call_2", "read", "{}"),
        StreamEvent::Finished(ApiFinish::ToolCalls),
    ];
    let seen = run(
        vec![
            vec![call_delta(0, "call_1", "read", "{}")],
            thinking,
            vec![StreamEvent::Content("done".into())],
        ],
        ToolOutcome::done("ok", "x"),
        DEFAULT_MAX_ROUNDS,
        &mut messages,
    );
    let thought: Vec<Option<&str>> = seen.requests[2]
        .iter()
        .filter(|message| !message.tool_calls.is_empty())
        .map(|message| message.reasoning_content.as_deref())
        .collect();
    assert_eq!(thought, [Some(REASONING_REPLAY_PLACEHOLDER), Some(""), Some("hm")]);
    assert_eq!(messages.last().unwrap().reasoning_content, None, "a plain answer owes nothing");
}

#[test]
fn a_reasoning_turn_keeps_its_thinking_in_the_message_and_in_the_transcript() {
    let mut messages = user("2+2?");
    let seen = run(
        vec![vec![
            StreamEvent::Reasoning("let me ".into()),
            StreamEvent::Reasoning("think".into()),
            StreamEvent::Content("4".into()),
            StreamEvent::Finished(ApiFinish::Stop),
        ]],
        ToolOutcome::done("", ""),
        DEFAULT_MAX_ROUNDS,
        &mut messages,
    );
    assert!(messages[2].has_reasoning());
    assert_eq!(messages[2].reasoning_content.as_deref(), Some("let me think"));
    assert!(seen.events.contains(&AgentEvent::Thinking("let me ".into())));
    assert!(seen.events.contains(&AgentEvent::Content("4".into())));
}

#[test]
fn a_tool_that_failed_still_answers_the_model_and_the_loop_carries_on() {
    let mut messages = user("read missing");
    let seen = run(
        vec![
            vec![
                call_delta(0, "call_1", "read", "{\"path\":\"missing\"}"),
                StreamEvent::Finished(ApiFinish::ToolCalls),
            ],
            vec![
                StreamEvent::Content("it is not there".into()),
                StreamEvent::Finished(ApiFinish::Stop),
            ],
        ],
        ToolOutcome::failed("read failed: no such file", "no such file"),
        DEFAULT_MAX_ROUNDS,
        &mut messages,
    );
    assert!(seen.events.contains(&AgentEvent::ToolResult {
        id: "call_1".into(),
        ok: false,
        summary: "read failed: no such file".into(),
    }));
    assert_eq!(messages[3].role, Role::Tool);
    assert_eq!(messages[4].content.as_deref(), Some("it is not there"));
}

#[test]
fn a_model_that_keeps_asking_for_tools_is_stopped_and_told() {
    let round = || {
        vec![
            call_delta(0, "call_x", "read", "{}"),
            StreamEvent::Finished(ApiFinish::ToolCalls),
        ]
    };
    let mut messages = user("loop forever");
    let seen = run(
        vec![round(), round(), round(), round()],
        ToolOutcome::done("ok", "x"),
        2,
        &mut messages,
    );
    assert_eq!(seen.calls.len(), 2, "two rounds, then the cap");
    assert!(seen.events.iter().any(|event| matches!(
        event,
        AgentEvent::Error(message) if message.contains("stopped after 2 rounds")
    )));
    assert_eq!(
        seen.events.last(),
        Some(&AgentEvent::TurnFinished { reason: FinishReason::Other("max_rounds".into()) })
    );
}

#[test]
fn a_stream_that_failed_keeps_what_it_said_and_reports_the_failure() {
    let mut messages = user("say something");
    let seen = run(
        vec![vec![
            StreamEvent::Content("half an ans".into()),
            StreamEvent::Error("upstream closed the connection".into()),
        ]],
        ToolOutcome::done("", ""),
        DEFAULT_MAX_ROUNDS,
        &mut messages,
    );
    assert_eq!(messages[2].content.as_deref(), Some("half an ans"));
    assert!(
        seen.events.contains(&AgentEvent::Error("upstream closed the connection".into()))
    );
    assert!(
        !seen.events.iter().any(|event| matches!(event, AgentEvent::TurnFinished { .. })),
        "a turn that failed did not finish"
    );
}

#[test]
fn the_loop_can_be_run_twice_over_the_same_history() {
    let mut messages = user("one");
    let answer = |text: &str| {
        vec![vec![
            StreamEvent::Content(text.into()),
            StreamEvent::Finished(ApiFinish::Stop),
        ]]
    };
    run(answer("first"), ToolOutcome::done("", ""), DEFAULT_MAX_ROUNDS, &mut messages);
    messages.push(ChatMessage::user("two"));
    let seen = run(answer("second"), ToolOutcome::done("", ""), DEFAULT_MAX_ROUNDS, &mut messages);
    let second = &seen.requests[0];
    assert_eq!(second.iter().filter(|m| m.role == Role::System).count(), 1);
    assert!(second.iter().any(|m| m.content.as_deref() == Some("first")));
    assert_eq!(messages.len(), 5, "system, user, assistant, user, assistant");
}

#[test]
fn fragments_of_several_calls_are_put_together_by_their_index() {
    let mut turn = Turn::new();
    for event in [
        call_delta(1, "b", "bash", "{\"c\""),
        call_delta(0, "a", "read", "{"),
        call_delta(1, "", "", ":1}"),
        call_delta(0, "", "", "}"),
    ] {
        assert_eq!(turn.absorb(event), None);
    }
    let calls = turn.calls();
    assert_eq!(calls.len(), 2);
    assert_eq!((calls[0].name(), calls[0].arguments()), ("read", "{}"));
    assert_eq!((calls[1].name(), calls[1].arguments()), ("bash", "{\"c\":1}"));
    assert_eq!(turn.error(), None);
}
