//! Session files: what is appended, what is read back, and which session is chosen.

use jmds::event::TurnUsage;
use jmds::message::{ChatMessage, ToolCall};
use jmds::session::{
    branch, by_id, id_at, is_session_name, latest_in, line_text, list, message_texts, new_id,
    recorded_millis, recover, reopened, session_file, summary, Header, Line, SessionText, Summary,
};

fn header(id: &str) -> Header {
    Header::new(id, "deepseek-chat", "/tmp/project")
}

/// The text of a session file with just its header, which is all choosing one needs.
fn session(id: &str, cwd: &str) -> SessionText {
    SessionText {
        path: session_file("/sessions", id),
        text: line_text(&Line::Header(Header::new(id, "test-model", cwd))),
    }
}

fn ids(listed: &[Summary]) -> Vec<&str> {
    listed.iter().map(|one| one.id()).collect()
}

fn with_messages(id: &str, messages: &[ChatMessage]) -> String {
    let mut text = line_text(&Line::Header(header(id)));
    for one in message_texts(messages) {
        text.push_str(&one);
    }
    text
}

#[test]
fn a_header_is_read_without_reading_the_rest() {
    let header = line_text(&Line::Header(Header::new("77-0", "m", "/w")));
    let summary = summary("/s/77-0.jsonl", &format!("{header}not json at all\n")).expect("一个头");
    assert_eq!(summary.id(), "77-0");
    assert_eq!(summary.header.cwd, "/w");
    assert_eq!(summary.path, "/s/77-0.jsonl");
}

#[test]
fn a_file_that_is_not_a_session_is_not_one_and_hides_nothing() {
    let strange = SessionText { path: "/s/notes.jsonl".into(), text: "not json at all\n".into() };
    let error = summary(&strange.path, &strange.text).unwrap_err();
    assert_eq!(error, "/s/notes.jsonl is not a session file");

    let listed = list(&[strange, session("100-0", "/w")]);
    assert_eq!(listed.len(), 1, "坏文件不该把好文件一起藏起来");
    assert_eq!(listed[0].id(), "100-0");
}

#[test]
fn sessions_are_listed_newest_first_within_the_same_millisecond_too() {
    let files: Vec<SessionText> =
        ["100-0", "200-0", "200-1", "99-9"].iter().map(|id| session(id, "/w")).collect();
    assert_eq!(ids(&list(&files)), ["200-1", "200-0", "100-0", "99-9"]);
    assert!(!is_session_name("notes.txt"));
}

#[test]
fn a_hand_made_id_lands_at_the_end_of_the_list() {
    let files = [session("handmade", "/w"), session("100-0", "/w"), session("zeta", "/w")];
    assert_eq!(ids(&list(&files)), ["100-0", "zeta", "handmade"]);
}

#[test]
fn resuming_only_offers_this_projects_conversation() {
    let listed = list(&[session("100-0", "/project/a"), session("200-0", "/project/b")]);
    let found = latest_in(&listed, "/project/a").expect("a 项目的会话");
    assert_eq!(found.id(), "100-0");
    assert!(latest_in(&listed, "/project/c").is_none(), "没在这个项目里聊过，就没有可接的话");
}

#[test]
fn a_session_is_found_by_id_and_a_missing_one_is_not_an_error() {
    let text = session("42-7", "/w").text;
    assert_eq!(by_id("/s", "42-7", Some(&text)).unwrap().expect("找到了").id(), "42-7");
    assert!(by_id("/s", "nope", None).unwrap().is_none());
    assert_eq!(
        by_id("/s", "bad", Some("x")).unwrap_err(),
        "/s/bad.jsonl is not a session file"
    );
}

#[test]
fn a_session_round_trips_its_messages_in_order() {
    let messages = vec![
        ChatMessage::system("be brief"),
        ChatMessage::user("read a.txt"),
        ChatMessage::assistant_with_tools(
            "reading",
            vec![ToolCall::new("call_1", "read", r#"{"path":"a.txt"}"#)],
        ),
        ChatMessage::tool("call_1", "hello\n"),
        ChatMessage::assistant("a.txt says hello"),
    ];
    let recovered = recover(&with_messages("one", &messages));
    assert!(recovered.is_complete());
    assert_eq!(recovered.header.as_ref().unwrap().id, "one");
    assert_eq!(recovered.messages(), messages, "same order, same shapes");
}

#[test]
fn a_line_cut_in_half_by_a_crash_is_where_reading_stops() {
    let mut text = with_messages(
        "crash",
        &[ChatMessage::user("one"), ChatMessage::user("two"), ChatMessage::user("three")],
    );
    text.push_str(r#"{"kind":"message","role":"user","conte"#);

    let recovered = recover(&text);
    assert_eq!(recovered.messages().len(), 3, "the three written messages");
    assert_eq!(recovered.stopped_at, Some(4), "the header, then three lines");
    assert!(!recovered.is_complete());
}

#[test]
fn a_line_that_cannot_be_read_stops_reading_rather_than_being_skipped() {
    let good = line_text(&Line::Message(ChatMessage::user("one")));
    let body = format!(
        "{}{}{}\n{}",
        line_text(&Line::Header(header("hole"))),
        good,
        "{ this is not json",
        good
    );
    let recovered = recover(&body);
    assert_eq!(recovered.messages().len(), 1, "nothing after the bad line");
    assert_eq!(recovered.stopped_at, Some(2));
}

#[test]
fn opening_a_file_that_is_not_a_session_says_so() {
    let error = reopened(&recover("just some text\n"), "/s/notes.jsonl").unwrap_err();
    assert!(error.contains("session header"), "{error}");
    // A header has to be the first line: a file whose first line is blank has none.
    let late = format!("\n{}", line_text(&Line::Header(header("late"))));
    assert!(reopened(&recover(&late), "x").is_err());
}

#[test]
fn a_session_that_is_reopened_keeps_appending() {
    let mut text = with_messages("reopen", &[ChatMessage::user("before")]);
    assert_eq!(reopened(&recover(&text), "x").unwrap().id, "reopen");
    for one in message_texts(&[ChatMessage::user("after")]) {
        text.push_str(&one);
    }
    let recovered = recover(&text);
    assert_eq!(
        recovered
            .messages()
            .iter()
            .map(|message| message.content.clone().unwrap_or_default())
            .collect::<Vec<_>>(),
        vec!["before", "after"]
    );
    assert_eq!(
        recovered.lines.iter().filter(|line| matches!(line, Line::Header(_))).count(),
        1,
        "reopening does not write a second header"
    );
}

#[test]
fn a_branch_keeps_the_first_lines_and_says_where_it_came_from() {
    let text = with_messages(
        "original",
        &[ChatMessage::user("one"), ChatMessage::assistant("two"), ChatMessage::user("three")],
    );
    let lines = branch(&recover(&text), "original.jsonl", 2, "branch-1").unwrap();
    let branched: String = lines.iter().map(line_text).collect();
    let recovered = recover(&branched);
    assert_eq!(recovered.header.as_ref().unwrap().id, "branch-1");
    assert_eq!(
        recovered.header.as_ref().unwrap().branched_from.as_deref(),
        Some("original")
    );
    assert_eq!(
        recovered
            .messages()
            .iter()
            .map(|message| message.content.clone().unwrap_or_default())
            .collect::<Vec<_>>(),
        vec!["one", "two"]
    );
    assert_eq!(
        branch(&recover("x"), "x.jsonl", 1, "b").unwrap_err(),
        "x.jsonl is not a session file"
    );
    assert_eq!(branch(&recover(&text), "o", 99, "b").unwrap().len(), 4);
}

#[test]
fn a_usage_line_is_kept_for_the_cost_total() {
    let usage = TurnUsage {
        prompt_tokens: 100,
        cache_hit_tokens: 80,
        cache_miss_tokens: 20,
        completion_tokens: 7,
        reasoning_tokens: 3,
    };
    let text = format!(
        "{}{}",
        line_text(&Line::Header(header("usage"))),
        line_text(&Line::Usage(usage))
    );
    let recovered = recover(&text);
    assert_eq!(recovered.usages(), vec![usage]);
    assert!(recovered.messages().is_empty());
}

#[test]
fn session_ids_sort_by_time_and_do_not_collide() {
    let first = new_id(0);
    let second = new_id(1);
    assert_ne!(first, second);
    let (a, b) = (first.split('-').next().unwrap(), second.split('-').next().unwrap());
    assert!(a <= b, "the timestamp part is the same or later: {first} {second}");
    assert!(a.len() >= 12, "milliseconds, not seconds: {a}");
    assert_eq!(id_at(1700000000000, 12), "1700000000000-12");
    assert_eq!(recorded_millis(None), 0);
}

#[test]
fn a_line_is_written_the_way_it_is_read() {
    let mut head = Header::at("7-0", "m", "/w", 5);
    assert_eq!(
        line_text(&Line::Header(head.duplicate())),
        "{\"kind\":\"header\",\"id\":\"7-0\",\"model\":\"m\",\"cwd\":\"/w\",\"started_at_ms\":5}\n"
    );
    head.branched_from = Some("6-0".into());
    let note = Line::Note { text: "line one\nline \"two\"\r\u{7}".into() };
    assert_eq!(
        line_text(&note),
        "{\"kind\":\"note\",\"text\":\"line one\\nline \\\"two\\\"\\r\\u0007\"}\n"
    );
    for line in [Line::Header(head), note, Line::Message(ChatMessage::user("é"))] {
        let text = line_text(&line);
        assert_eq!(recover(&text).lines, vec![line.duplicate()]);
        assert_eq!(Line::from_json(&line.to_json()), Some(line));
    }
    for wrong in [
        "{\"kind\":\"note\"}",
        "{\"kind\":\"else\",\"text\":\"x\"}",
        "{\"text\":\"x\"}",
        "{\"kind\":\"usage\",\"prompt_tokens\":1}",
        "{\"kind\":\"header\",\"id\":\"x\"}",
        "3",
    ] {
        assert_eq!(recover(wrong).stopped_at, Some(0), "{wrong}");
    }
}

#[test]
fn a_session_file_is_known_by_its_name() {
    assert!(is_session_name("1-0.jsonl"));
    assert!(is_session_name("a.b.jsonl"));
    assert!(!is_session_name(".jsonl"));
    assert!(!is_session_name("x.json"));
    assert_eq!(session_file("/s", "1-0"), "/s/1-0.jsonl");
}

#[test]
fn blank_rows_carry_nothing() {
    let text = format!("{}\n  \n{}", line_text(&Line::Header(header("b"))), "{oops");
    let recovered = recover(&text);
    assert_eq!(recovered.lines.len(), 1);
    assert_eq!(recovered.stopped_at, Some(3));
    assert!(recover("").is_complete());
}

#[test]
fn a_line_may_be_a_list_of_its_fields() {
    let text = concat(&[
        r#"["header","one","deepseek-chat","/w",7]"#,
        r#"["message","assistant","hi",null,[["call_1","function",["read","{}"]]]]"#,
        r#"["message",{"user":null}]"#,
        r#"["usage",1,2,3,4,5]"#,
        r#"["note","restarted"]"#,
    ]);
    let recovered = recover(&text);
    assert!(recovered.is_complete());
    assert_eq!(recovered.header, Some(Header::at("one", "deepseek-chat", "/w", 7)));
    let mut turn = ChatMessage::assistant_with_tools(
        "hi",
        vec![ToolCall::new("call_1", "read", "{}")],
    );
    turn.reasoning_content = None;
    assert_eq!(recovered.lines[1], Line::Message(turn));
    let Line::Message(user) = &recovered.lines[2] else { panic!("{:?}", recovered.lines[2]) };
    assert_eq!(user.content, None);
    assert_eq!(
        recovered.lines[3],
        Line::Usage(TurnUsage {
            prompt_tokens: 1,
            cache_hit_tokens: 2,
            cache_miss_tokens: 3,
            completion_tokens: 4,
            reasoning_tokens: 5,
        })
    );
    assert_eq!(recovered.lines[4], Line::Note { text: "restarted".to_string() });

    for wrong in [
        "[]",
        r#"["note"]"#,
        r#"["note","a","b"]"#,
        r#"["usage",1,2,3,4]"#,
        r#"["header","one","m","/w"]"#,
        r#"["other","x"]"#,
        r#"[7,"x"]"#,
        r#"["message",{"user":1}]"#,
    ] {
        assert_eq!(recover(wrong).stopped_at, Some(0), "{wrong}");
    }
}

fn concat(rows: &[&str]) -> String {
    rows.iter().map(|row| format!("{row}\n")).collect()
}
