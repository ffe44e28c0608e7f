//! The four tools, and the set the model is told about.

use jmds::event::{Event, FileEvent, PaneEvent, PtyEvent};
use jmds::json::Json;
use jmds::pane::{PaneId, PaneKind};
use jmds::paths::expand_tilde_with;
use jmds::tools::bash::{
    artifact_path, bash, check_cwd, clamp_notice, lift_leading_cd, place_command, resolve_timeout,
    BashArgs, BashError, BashOutput, CwdFound, Ending, Sink, DEFAULT_TIMEOUT_SECS,
    MAX_TIMEOUT_SECS, MEMORY_BUDGET,
};
use jmds::tools::edit::{edit, edit_text, EditArgs, EditError, Edited, Replace};
use jmds::tools::queue::{in_use, key_for};
use jmds::tools::read::{read, OnDisk, ReadArgs, ReadError};
use jmds::tools::set::{
    bash_outcome, edit_outcome, first_line, is_stop, read_outcome, route, unreadable_arguments,
    write_outcome, Tool, ToolSet, CTRL_C, ORDER,
};
use jmds::tools::truncate::MAX_BYTES;
use jmds::tools::write::{WriteArgs, WriteError, Written};

fn numbered(n: usize) -> String {
    (1..=n).map(|i| format!("line {i}")).collect::<Vec<_>>().join("\n")
}

fn file(text: &str) -> OnDisk {
    OnDisk::File(text.as_bytes().to_vec())
}

fn keys(object: &Json) -> Vec<String> {
    let Json::Object(entries) = object else { panic!("not an object: {object:?}") };
    let mut keys: Vec<String> = entries.iter().map(|(key, _)| key.clone()).collect();
    keys.sort_unstable();
    keys
}

fn words(list: &Json) -> Vec<String> {
    let Json::List(items) = list else { panic!("not a list: {list:?}") };
    items.iter().map(|item| item.as_text().unwrap().clone()).collect()
}

// Reading -------------------------------------------------------------------------------------

#[test]
fn a_small_file_comes_back_whole_and_without_ceremony() {
    let text = numbered(3);
    let out = read(&ReadArgs::new("a.txt"), "/w/a.txt", text.len(), file(&text)).unwrap();
    assert_eq!(out.render(), "line 1\nline 2\nline 3");
    assert!(out.shown.complete);
    assert_eq!(out.bytes, text.len());
}

#[test]
fn a_long_file_says_which_lines_these_are_and_how_to_continue() {
    let args = ReadArgs::new("b.txt").with_limit(2);
    let out = read(&args, "/w/b.txt", 9, file(&numbered(500))).unwrap();
    let text = out.render();
    assert!(text.starts_with("line 1\nline 2\n"), "{text}");
    assert!(
        text.contains("[showing lines 1-2 of 500. Use offset=3 to continue.]"),
        "{text}"
    );
}

#[test]
fn an_offset_reads_on_from_where_the_last_answer_stopped() {
    let args = ReadArgs::new("c.txt").from_line(4).with_limit(2);
    let out = read(&args, "/w/c.txt", 9, file(&numbered(10))).unwrap();
    assert!(out.render().starts_with("line 4\nline 5\n"));
    assert_eq!(out.shown.first_line, 4);
}

#[test]
fn reading_past_the_end_is_an_empty_answer_and_not_an_error() {
    let args = ReadArgs::new("d.txt").from_line(99);
    let out = read(&args, "/w/d.txt", 9, file(&numbered(3))).unwrap();
    assert!(out.is_empty());
    assert_eq!(out.render(), "");
}

#[test]
fn a_single_line_longer_than_the_budget_gets_the_command_instead_of_a_fragment() {
    let text = format!("{{\"blob\":\"{}\"}}", "x".repeat(MAX_BYTES + 10));
    let out = read(&ReadArgs::new("one-line.json"), "/w/one-line.json", 9, file(&text)).unwrap();
    let text = out.render();
    assert!(out.is_empty(), "{text}");
    assert!(text.contains("line 1 is longer than"), "{text}");
    assert!(text.contains("sed -n '1p'"), "the answer must be a way forward: {text}");
}

#[test]
fn a_tilde_is_expanded_because_the_model_does_not_have_a_shell() {
    let path = expand_tilde_with("~/jmds-does-not-exist", Some("/home/me".to_string()));
    assert!(std::path::Path::new(&path).is_absolute(), "{path}");
    assert!(!path.starts_with('~'));
}

#[test]
fn the_three_failures_a_model_can_cause_each_say_what_to_do_instead() {
    let args = ReadArgs::new("x");
    let error = read(&args, "/w/nope.txt", 0, OnDisk::Missing).unwrap_err();
    assert!(matches!(error, ReadError::NotFound(_)));
    assert!(error.message().contains("does not exist"));

    let error = read(&args, "/w", 0, OnDisk::Directory).unwrap_err();
    assert!(matches!(error, ReadError::NotAFile(_)));
    assert!(error.message().contains("bash"), "{}", error.message());

    let binary = OnDisk::File(vec![0xff, 0xfe, 0x00, 0x01]);
    let error = read(&args, "/w/binary.bin", 4, binary).unwrap_err();
    assert!(matches!(error, ReadError::NotUtf8(_)));
    assert!(error.message().contains("bash"), "{}", error.message());

    let error = read(&args, "/w/secret", 0, OnDisk::Unreadable("denied".into())).unwrap_err();
    assert!(error.message().contains("denied"), "{}", error.message());
}

#[test]
fn read_the_schema_and_the_struct_describe_the_same_parameters() {
    let ReadArgs { path: _, offset: _, limit: _ } = ReadArgs::new("x").from_line(2).with_limit(3);
    let schema = ReadArgs::schema();
    assert_eq!(keys(schema.get("properties").unwrap()), ["limit", "offset", "path"]);
    assert_eq!(words(schema.get("required").unwrap()), ["path"]);
}

#[test]
fn a_window_starts_at_the_first_line_when_nothing_is_asked_for() {
    assert_eq!(ReadArgs::new("x").window().0, 1);
    assert_eq!(ReadArgs::new("x").from_line(0).window().0, 1);
    assert_eq!(ReadArgs::new("x").from_line(7).with_limit(3).window(), (7, 3));
}

// Writing -------------------------------------------------------------------------------------

fn content(text: &str) -> WriteArgs {
    WriteArgs { path: "a.txt".into(), content: text.into() }
}

#[test]
fn writing_again_replaces_and_says_that_it_replaced() {
    let first = jmds::tools::write::write(&content("one"), "/w/a.txt", Written::Done { existed: false }).unwrap();
    assert!(first.created);
    let out = jmds::tools::write::write(&content("two"), "/w/a.txt", Written::Done { existed: true }).unwrap();
    assert!(!out.created, "the second write is a replacement");
    assert_eq!(out.bytes, 3);
    let out = jmds::tools::write::write(&content("# 提示词\n"), "/w/a.txt", Written::Done { existed: false }).unwrap();
    assert_eq!(out.bytes, "# 提示词\n".len());
}

#[test]
fn a_write_to_a_directory_under_a_file_is_reported_not_panicked() {
    let outcome = Written::NoDirectory { dir: "/w/file".into(), error: "not a directory".into() };
    let error = jmds::tools::write::write(&content("x"), "/w/file/under-a-file.txt", outcome).unwrap_err();
    assert!(error.message().contains("could not be written"), "{}", error.message());
    assert_eq!(error, WriteError::Io { path: "/w/file".into(), error: "not a directory".into() });
    let error = jmds::tools::write::write(&content("x"), "/w/x", Written::Refused("full".into())).unwrap_err();
    assert_eq!(error.message(), "/w/x could not be written: full");
}

#[test]
fn write_the_schema_and_the_struct_describe_the_same_parameters() {
    let WriteArgs { path: _, content: _ } = content("y");
    let schema = WriteArgs::schema();
    assert_eq!(keys(schema.get("properties").unwrap()), ["content", "path"]);
    assert_eq!(words(schema.get("required").unwrap()), ["path", "content"]);
}

// Editing -------------------------------------------------------------------------------------

fn replace(old: &str, new: &str) -> Replace {
    Replace { old_text: old.into(), new_text: new.into() }
}

fn edited(text: &str, edits: &[Replace]) -> Result<Edited, EditError> {
    edit_text(text, edits, "/w/f")
}

#[test]
fn one_exact_snippet_is_replaced() {
    let out = edited("fn main() {\n    todo!()\n}\n", &[replace("todo!()", "println!(\"hi\")")])
        .unwrap();
    assert_eq!(out.output.replaced, 1);
    assert_eq!(out.output.first_changed_line, 2);
    assert_eq!(out.content, "fn main() {\n    println!(\"hi\")\n}\n");
    assert_eq!(out.output.bytes, out.content.len());
}

#[test]
fn every_edit_is_matched_against_the_original_file() {
    let out = edited(
        "let a = 1;\nlet b = 2;\n",
        &[replace("let a = 1;", "let a = 10;"), replace("let b = 2;", "let b = 20;")],
    )
    .unwrap();
    assert_eq!(out.output.replaced, 2);
    assert_eq!(out.content, "let a = 10;\nlet b = 20;\n");
}

#[test]
fn the_order_of_the_edits_does_not_matter() {
    let a = replace("one", "two");
    let b = replace("three", "one");
    let forth = edited("one three", &[a.clone(), b.clone()]).unwrap();
    let back = edited("one three", &[b, a]).unwrap();
    assert_eq!(forth.content, "two one");
    assert_eq!(forth.content, back.content);
}

#[test]
fn a_snippet_that_is_not_there_says_to_read_the_file_again() {
    let error = edited("fn main() {}\n", &[replace("fn other() {}", "x")]).unwrap_err();
    assert!(matches!(error, EditError::NotFound { index: 0, .. }));
    let text = error.message();
    assert!(text.contains("Read the file again"), "{text}");
}

#[test]
fn a_snippet_that_appears_twice_is_refused_with_the_count() {
    let error =
        edited("let x = 1;\nlet x = 1;\n", &[replace("let x = 1;", "let x = 2;")]).unwrap_err();
    assert!(matches!(error, EditError::NotUnique { index: 0, count: 2 }));
    assert!(error.message().contains("appears 2 times"), "{}", error.message());
}

#[test]
fn overlapping_occurrences_count_as_ambiguous() {
    let error = edited("aaa", &[replace("aa", "b")]).unwrap_err();
    assert!(matches!(error, EditError::NotUnique { count: 2, .. }));
    let error = edited("错错错", &[replace("错错", "b")]).unwrap_err();
    assert!(matches!(error, EditError::NotUnique { count: 2, .. }));
}

#[test]
fn edits_that_cover_the_same_text_are_refused_as_a_pair() {
    let error = edited(
        "let value = 42;\n",
        &[replace("let value = 42;", "let value = 43;"), replace("value = 42", "value = 44")],
    )
    .unwrap_err();
    assert!(matches!(error, EditError::Overlap { .. }), "{error:?}");
    assert!(error.message().contains("overlapping"), "{}", error.message());
}

#[test]
fn an_edit_that_changes_nothing_is_refused() {
    let error = edited("unchanged\n", &[replace("unchanged", "unchanged")]).unwrap_err();
    assert!(matches!(error, EditError::NoChange), "{error:?}");
    assert!(!error.message().is_empty());
}

#[test]
fn an_empty_old_text_is_refused() {
    let error = edited("x\n", &[replace("", "y")]).unwrap_err();
    assert!(matches!(error, EditError::EmptyOldText { index: 0 }));
}

#[test]
fn a_crlf_file_is_matched_in_lf_and_written_back_in_crlf() {
    let out = edited("first\r\nsecond\r\nthird\r\n", &[replace("second", "SECOND")]).unwrap();
    assert_eq!(out.output.replaced, 1);
    assert_eq!(
        out.content, "first\r\nSECOND\r\nthird\r\n",
        "the untouched lines keep their own bytes, and the file keeps its style"
    );
}

#[test]
fn a_snippet_written_with_lf_matches_a_crlf_file() {
    let out = edited("one\r\ntwo\r\n", &[replace("one\ntwo", "1\n2")]).unwrap();
    assert_eq!(out.output.replaced, 1);
    assert_eq!(out.content, "1\r\n2\r\n");
}

#[test]
fn a_byte_order_mark_survives_the_edit() {
    let out = edited("\u{feff}hello\n", &[replace("hello", "hi")]).unwrap();
    assert_eq!(out.content, "\u{feff}hi\n");
}

#[test]
fn deleting_a_snippet_needs_only_an_empty_replacement() {
    let out = edited("keep\ndrop me\nkeep\n", &[replace("drop me\n", "")]).unwrap();
    assert_eq!(out.content, "keep\nkeep\n");
}

#[test]
fn the_snippet_is_matched_exactly_whitespace_and_all() {
    let text = "fn f() {\n    call();\n}\n";
    let error = edited(text, &[replace("call(  );", "other();")]).unwrap_err();
    assert!(matches!(error, EditError::NotFound { .. }), "{error:?}");
    let out = edited(text, &[replace("    call();", "    other();")]).unwrap();
    assert_eq!(out.content, "fn f() {\n    other();\n}\n");
}

#[test]
fn edit_the_schema_and_the_struct_describe_the_same_parameters() {
    let EditArgs { path: _, edits } = EditArgs { path: "x".into(), edits: vec![replace("a", "b")] };
    let Replace { old_text: _, new_text: _ } = &edits[0];
    let schema = EditArgs::schema();
    assert_eq!(keys(schema.get("properties").unwrap()), ["edits", "path"]);
    let items = schema.get("properties").unwrap().get("edits").unwrap().get("items").unwrap();
    let inner = items.get("properties").unwrap();
    assert!(inner.get("old_text").is_some() && inner.get("new_text").is_some());
    assert_eq!(words(items.get("required").unwrap()), ["old_text", "new_text"]);
}

#[test]
fn an_edit_of_what_cannot_be_read_says_why() {
    let args = EditArgs { path: "a".into(), edits: vec![replace("a", "b")] };
    let error = edit(&args, "/w/a", OnDisk::Missing).unwrap_err();
    assert_eq!(error, EditError::Read(ReadError::NotFound("/w/a".into())));
    assert!(error.message().contains("does not exist"), "{}", error.message());
    assert_eq!(edit(&args, "/w/a", file("a")).unwrap().content, "b");
}

// The queue -----------------------------------------------------------------------------------

#[test]
fn a_lock_is_keyed_by_the_real_path() {
    let real = || Some("/real/b.txt".to_string());
    assert_eq!(key_for("/d/b.txt", real(), None, None), "/real/b.txt");
    assert_eq!(
        key_for("/d/b.txt", real(), None, None),
        key_for("/d/sub/../b.txt", real(), None, None)
    );
    assert_eq!(
        key_for("x/new.txt", None, Some("/real".into()), Some("new.txt".into())),
        "/real/new.txt"
    );
    assert_eq!(key_for("x/new.txt", None, None, Some("new.txt".into())), "x/new.txt");
    assert!(!in_use(1));
    assert!(in_use(2));
}

// Commands ------------------------------------------------------------------------------------

fn no_file() -> Result<String, String> {
    Err("no file here".to_string())
}

fn ran(output: &str, ending: Ending) -> BashOutput {
    let mut sink = Sink::new();
    assert_eq!(sink.push(output.as_bytes(), no_file()), "");
    bash(&sink, ending, resolve_timeout(None), "/w")
}

const EXITED: Ending = Ending::Exited { code: Some(0), signal: None };

#[test]
fn a_command_that_works_reports_its_output_and_its_exit() {
    let out = ran("hello\n", EXITED);
    assert_eq!(out.exit_code, Some(0));
    assert!(!out.is_error());
    assert_eq!(out.text.text.trim(), "hello");
    assert_eq!(out.cwd, "/w");
    assert!(out.artifact.is_none());
    assert!(out.render().ends_with("[exit 0]"), "{}", out.render());
}

#[test]
fn a_failing_command_is_an_error_with_its_code() {
    let out = ran("", Ending::Exited { code: Some(3), signal: None });
    assert_eq!(out.exit_code, Some(3));
    assert!(out.is_error());
    assert!(out.render().contains("[exit 3]"));
    let out = ran("", Ending::Exited { code: None, signal: Some(11) });
    assert!(out.is_error());
    assert!(out.render().contains("killed by signal 11"));
}

#[test]
fn a_relative_cwd_is_resolved_against_the_session_directory() {
    let mut args = BashArgs::new("pwd");
    args.cwd = Some("sub".into());
    assert_eq!(place_command(&args, "/w", None), ("pwd".into(), "/w/sub".into()));
    args.cwd = Some("/else".into());
    assert_eq!(place_command(&args, "/w", None).1, "/else");
    args.cwd = Some("~/x".into());
    assert_eq!(place_command(&args, "/w", Some("/home/me".into())).1, "/home/me/x");
}

#[test]
fn a_leading_cd_is_lifted_out_of_the_command() {
    let placed = place_command(&BashArgs::new("cd sub && pwd"), "/w", None);
    assert_eq!(placed, ("pwd".into(), "/w/sub".into()));
    let (_, cwd) = place_command(&BashArgs::new("cd sub"), "/w", None);
    assert_eq!(cwd, "/w/sub");
    assert_eq!(lift_leading_cd("echo cd x && y"), None);
    assert_eq!(place_command(&BashArgs::new("pwd"), "/w", None), ("pwd".into(), "/w".into()));
}

#[test]
fn a_working_directory_that_is_wrong_is_reported_with_the_reason() {
    let error = check_cwd("/w/nowhere", CwdFound::Missing).unwrap_err();
    assert!(matches!(error, BashError::BadCwd { .. }));
    assert!(error.message().contains("does not exist"), "{}", error.message());
    let error = check_cwd("/w/a-file", CwdFound::NotADirectory).unwrap_err();
    assert!(error.message().contains("is not a directory"), "{}", error.message());
    let error = check_cwd("/w/x", CwdFound::Hidden("denied".into())).unwrap_err();
    assert!(error.message().contains("denied"), "{}", error.message());
    assert!(check_cwd("/w", CwdFound::Directory).is_ok());
    assert!(BashError::Spawn("no bash".into()).message().contains("no bash"));
}

#[test]
fn a_timeout_kills_the_command_and_says_so() {
    let out = ran("", Ending::TimedOut);
    assert!(out.timed_out);
    assert!(out.is_error());
    assert!(out.render().contains("timed out"), "{}", out.render());
}

#[test]
fn the_timeout_table_clamps_both_ends_and_says_so() {
    assert_eq!(resolve_timeout(None).secs, Some(DEFAULT_TIMEOUT_SECS));
    assert_eq!(resolve_timeout(None).clamped, None);
    assert_eq!(resolve_timeout(Some(0)).secs, None, "0 is a request, not a zero");
    assert_eq!(resolve_timeout(Some(30)).secs, Some(30));
    assert_eq!(
        resolve_timeout(Some(99_999)).clamped,
        Some((99_999, MAX_TIMEOUT_SECS))
    );
    assert_eq!(resolve_timeout(Some(1)).clamped, None, "the floor is allowed");
}

#[test]
fn a_clamped_timeout_is_visible_to_the_model() {
    let mut sink = Sink::new();
    sink.push(b"quick\n", no_file());
    let out = bash(&sink, EXITED, resolve_timeout(Some(99_999)), "/w");
    assert!(
        out.render().contains("timeout clamped to 3600s (asked for 99999s)"),
        "{}",
        out.render()
    );
    assert_eq!(clamp_notice(resolve_timeout(Some(5))), None);
}

#[test]
fn output_too_long_for_memory_is_kept_in_an_artifact_and_named() {
    let mut sink = Sink::new();
    let mut kept = String::new();
    for i in 1..=40000 {
        let line = format!("line {i}\n");
        let made = if sink.wants_artifact(line.as_bytes()) {
            Ok("/cache/bash-1-0.log".to_string())
        } else {
            no_file()
        };
        kept.push_str(&sink.push(line.as_bytes(), made));
    }
    let out = bash(&sink, EXITED, resolve_timeout(None), "/w");
    assert!(kept.contains("line 1\n"), "the artifact holds the output from the start");
    assert!(kept.contains("line 40000"), "and to the end");
    assert_eq!(kept.lines().count(), 40000, "every line is in the artifact, not just the tail");
    assert!(
        !out.text.complete,
        "the head was dropped, so the answer must not read as the whole output"
    );
    assert_eq!(out.text.total_lines, 40000, "the count is the run's, not the tail's");
    assert!(out.render().contains("showing lines"), "{}", out.render());
    assert_eq!(out.artifact.as_deref(), Some("/cache/bash-1-0.log"));
    assert!(out.render().contains("/cache/bash-1-0.log"), "{}", out.render());
    assert_eq!(sink.total_bytes(), kept.len());
}

#[test]
fn an_artifact_that_cannot_be_made_is_said() {
    let mut sink = Sink::new();
    let chunk = vec![b'x'; MEMORY_BUDGET + 1];
    assert!(sink.wants_artifact(&chunk));
    assert_eq!(sink.push(&chunk, Err("disk full".into())), "");
    assert!(!sink.wants_artifact(b"more"));
    let out = bash(&sink, EXITED, resolve_timeout(None), "/w");
    assert_eq!(out.artifact_error.as_deref(), Some("disk full"));
    assert!(out.render().contains("could not be saved: disk full"), "{}", out.render());
    assert_eq!(artifact_path("/c", 17, 3), "/c/bash-17-3.log");
}

#[test]
fn output_that_is_not_text_is_replaced_and_not_fatal() {
    let mut sink = Sink::new();
    sink.push(b"a\xffb\n", no_file());
    assert_eq!(sink.tail().text, "a\u{fffd}b");
}

#[test]
fn a_single_enormous_line_is_capped_with_a_mark() {
    let out = ran(&format!("{}\nafter\n", "x".repeat(2000)), EXITED);
    let text = out.text.text;
    assert!(text.contains("[+"), "the cut is marked: {}", &text[..40.min(text.len())]);
    assert!(text.contains("after"), "the lines after a long one still show");
}

#[test]
fn bash_the_schema_and_the_struct_describe_the_same_parameters() {
    let BashArgs { command: _, timeout: _, cwd: _ } = BashArgs::new("x");
    let schema = BashArgs::schema();
    assert_eq!(keys(schema.get("properties").unwrap()), ["command", "cwd", "timeout"]);
    assert_eq!(words(schema.get("required").unwrap()), ["command"]);
}

// The set -------------------------------------------------------------------------------------

fn id(n: u64) -> PaneId {
    PaneId::new(n)
}

#[test]
fn the_model_is_told_about_four_tools_each_with_its_own_parameters() {
    let set = ToolSet::new("/tmp");
    let specs = set.specs();
    let names: Vec<&str> = specs.iter().map(|spec| spec.name.as_str()).collect();
    assert_eq!(names, ORDER, "the table's order is the ORDER constant");
    for spec in &specs {
        assert!(!spec.description.trim().is_empty(), "{} needs a description", spec.name);
        assert!(
            spec.parameters.get("properties").is_some(),
            "{} needs parameters the model can fill in: {:?}",
            spec.name,
            spec.parameters
        );
    }
}

#[test]
fn every_description_names_the_parameters_its_schema_requires() {
    for spec in ToolSet::new("/tmp").specs() {
        for name in words(spec.parameters.get("required").unwrap()) {
            assert!(
                spec.description.contains(&name),
                "{}: the description never mentions `{name}`, which the schema requires. It says: {}",
                spec.name,
                spec.description
            );
        }
    }
}

#[test]
fn a_read_through_the_set_returns_the_file_and_a_one_line_summary() {
    let set = ToolSet::new("/w");
    let path = set.resolve("a.txt", None);
    assert_eq!(path, "/w/a.txt");
    let outcome = read_outcome(&read(&ReadArgs::new("a.txt"), &path, 8, file("one\ntwo\n")));
    assert!(outcome.ok);
    assert_eq!(outcome.content, "one\ntwo");
    assert!(outcome.summary.contains("a.txt"), "{}", outcome.summary);
    assert!(outcome.summary.contains("2 lines"), "{}", outcome.summary);
}

#[test]
fn a_write_says_whether_it_created_or_replaced() {
    let wrote = write_outcome(&jmds::tools::write::write(&content("x"), "/w/n.md", Written::Done { existed: false }));
    assert!(wrote.ok && wrote.summary.starts_with("created"), "{wrote:?}");
    let again = write_outcome(&jmds::tools::write::write(&content("x"), "/w/n.md", Written::Done { existed: true }));
    assert!(again.summary.starts_with("replaced"), "{}", again.summary);
    let failed = write_outcome(&jmds::tools::write::write(&content("x"), "/w/n.md", Written::Refused("no".into())));
    assert!(!failed.ok && failed.summary.starts_with("write failed"), "{failed:?}");
}

#[test]
fn an_edit_that_cannot_land_says_why_and_is_not_a_success() {
    let result = edited("hello\n", &[replace("nowhere", "x")]).map(|edited| edited.output);
    let outcome = edit_outcome(&result);
    assert!(!outcome.ok, "{outcome:?}");
    assert!(
        outcome.content.contains("edits[0]") && outcome.content.contains("Read the file again"),
        "{}",
        outcome.content
    );
    assert!(
        outcome.summary.starts_with("edit failed"),
        "the transcript line says what kind of thing happened: {}",
        outcome.summary
    );
    let fine = edited("hello\n", &[replace("hello", "x")]).map(|edited| edited.output);
    assert!(edit_outcome(&fine).ok);
}

#[test]
fn malformed_arguments_come_back_as_an_error_the_model_can_fix() {
    let outcome = unreadable_arguments("read", r#"{"path": 12}"#, "invalid type");
    assert!(!outcome.ok);
    assert!(outcome.content.contains("could not be read as JSON"), "{}", outcome.content);
    assert!(
        outcome.content.contains(r#"{"path": 12}"#),
        "the model is shown what it sent: {}",
        outcome.content
    );
}

#[test]
fn a_tool_that_does_not_exist_lists_the_ones_that_do() {
    let outcome = route("grep").unwrap_err();
    assert!(!outcome.ok);
    assert!(outcome.content.contains("read, write, edit, bash"), "{}", outcome.content);
    assert_eq!(route("read"), Ok(Tool::Read));
    assert_eq!(route("write"), Ok(Tool::Write));
    assert_eq!(route("edit"), Ok(Tool::Edit));
    assert_eq!(route("bash"), Ok(Tool::Bash));
}

#[test]
fn bash_runs_in_the_session_directory_and_reports_its_status() {
    let ok = bash_outcome("pwd", &Ok(ran("/w\n", EXITED)));
    assert!(ok.ok, "{ok:?}");
    assert!(ok.content.contains("/w"), "{}", ok.content);
    assert!(ok.summary.contains("exit 0"), "{}", ok.summary);
    let bad = bash_outcome("exit 4", &Ok(ran("", Ending::Exited { code: Some(4), signal: None })));
    assert!(!bad.ok);
    assert!(bad.summary.contains("exit 4"), "{}", bad.summary);
}

#[test]
fn a_read_of_a_missing_file_is_a_result_not_a_panic() {
    let outcome = read_outcome(&read(&ReadArgs::new("nope.txt"), "/w/nope.txt", 0, OnDisk::Missing));
    assert!(!outcome.ok);
    assert!(!outcome.content.is_empty());
}

#[test]
fn a_write_announces_itself_so_the_watcher_can_stay_quiet() {
    let set = ToolSet::new("/w").with_bus();
    let written = Some(FileEvent::EditorWrote { path: "/w/a.txt".into() });
    let args = WriteArgs { path: "/w/a.txt".into(), content: "hi".into() };
    let done = Written::Done { existed: false };
    let outcome = write_outcome(&jmds::tools::write::write(&args, &args.path, done));
    assert!(outcome.ok, "{}", outcome.content);
    assert_eq!(set.announcement(Tool::Write, &args.path), written);
    assert_eq!(set.announcement(Tool::Edit, &args.path), written);
    assert_eq!(set.announce_write("/w/a.txt"), written);
    assert_eq!(ToolSet::new("/w").announce_write("/w/a.txt"), None);
    assert_eq!(ToolSet::new("/w").announcement(Tool::Write, "/w/a.txt"), None);

    let read = read_outcome(&read(&ReadArgs::new("/w/a.txt"), "/w/a.txt", 2, file("hi")));
    assert!(read.ok, "{}", read.content);
    assert_eq!(set.announcement(Tool::Read, "/w/a.txt"), None, "读文件不写盘，不该有公告");
    assert_eq!(set.announcement(Tool::Bash, "/w/a.txt"), None);
}

#[test]
fn a_call_that_never_starts_takes_its_pane_back() {
    let mut set = ToolSet::new("/w").with_bus();
    let opened = set.begin_bash(id(1), "echo hi");
    assert_eq!(opened.len(), 1, "先开了它");
    let failed = check_cwd("/definitely/not/here", CwdFound::Missing).map(|_| ran("", EXITED));
    let (outcome, closed) = set.call_bash(id(1), "echo hi", &failed);
    assert!(!outcome.ok, "{}", outcome.content);
    assert_eq!(closed, Some(PaneEvent::Closed { id: id(1) }), "然后收了回去，不留一格空面板");
    assert!(set.panes().is_empty());
}

#[test]
fn a_bash_call_gets_a_terminal_pane_and_reports_what_it_saw() {
    let mut set = ToolSet::new("/w").with_bus();
    match &set.begin_bash(id(5), "echo hi")[..] {
        [PaneEvent::Opened { spec }] => {
            assert_eq!(spec.kind, PaneKind::Terminal, "一格终端面板");
            assert_eq!(spec.title, "echo hi", "标题是这一格的用途：命令的首行");
            assert_eq!(spec.id, id(5));
        }
        other => panic!("面板该先开出来：{other:?}"),
    }
    let (outcome, closed) = set.call_bash(id(5), "echo hi", &Ok(ran("hi\n", EXITED)));
    assert!(outcome.ok, "{outcome:?}");
    assert_eq!(closed, None);
    assert_eq!(set.panes(), &vec![id(5)]);
}

#[test]
fn ctrl_c_in_the_pane_stops_the_command() {
    let typed = |pane, bytes: &[u8]| {
        Event::Pty(PtyEvent::Input { id: id(pane), bytes: bytes.to_vec() })
    };
    assert!(is_stop(id(1), &typed(1, &[b'x', CTRL_C])));
    assert!(!is_stop(id(1), &typed(2, &[CTRL_C])));
    assert!(!is_stop(id(1), &typed(1, b"ls\n")));
    let out = ran("", Ending::Interrupted);
    let outcome = bash_outcome("sleep 30", &Ok(out));
    assert!(outcome.ok, "被叫停不是调用失败：{outcome:?}");
    assert!(outcome.content.contains("interrupted"), "{}", outcome.content);
    assert!(outcome.summary.contains("interrupted"), "{}", outcome.summary);
}

#[test]
fn closing_the_pane_stops_the_command() {
    assert!(is_stop(id(1), &Event::Pty(PtyEvent::Kill { id: id(1) })));
    assert!(!is_stop(id(1), &Event::Pty(PtyEvent::Kill { id: id(2) })));
    let mut set = ToolSet::new("/w").with_bus();
    set.begin_bash(id(1), "sleep 30");
    let (outcome, _) = set.call_bash(id(1), "sleep 30", &Ok(ran("", Ending::Interrupted)));
    assert!(outcome.ok, "被叫停不是调用失败：{outcome:?}");
    assert!(outcome.content.contains("interrupted"), "{}", outcome.content);
}

#[test]
fn a_third_call_closes_the_oldest_pane() {
    let mut set = ToolSet::new("/w").with_bus();
    let mut closed = Vec::new();
    let mut opened = Vec::new();
    for (n, command) in [(1, "echo one"), (2, "echo two"), (3, "echo three")] {
        for event in set.begin_bash(id(n), command) {
            match event {
                PaneEvent::Opened { spec } => opened.push(spec.id),
                PaneEvent::Closed { id } => closed.push(id),
                _ => {}
            }
        }
    }
    assert_eq!(opened.len(), 3, "三次调用，三次开面板");
    assert_eq!(closed, vec![opened[0]], "布局满了，关的是最旧的那一格");
    assert_eq!(set.panes(), &vec![opened[1], opened[2]]);
}

#[test]
fn a_tool_set_without_a_bus_runs_bash_and_opens_no_panes() {
    let mut set = ToolSet::new("/w");
    assert!(!set.is_watched());
    assert!(set.begin_bash(id(1), "echo hi").is_empty());
    let (outcome, closed) = set.call_bash(id(1), "echo hi", &Ok(ran("hi\n", EXITED)));
    assert!(outcome.ok, "{outcome:?}");
    assert!(outcome.content.contains("hi"), "{}", outcome.content);
    assert_eq!(closed, None);
    assert!(set.panes().is_empty(), "没有总线就没有面板");
}

#[test]
fn a_summary_is_one_short_line() {
    assert_eq!(first_line("  ls -l \necho"), "ls -l");
    assert_eq!(first_line(""), "");
    let long = "é".repeat(61);
    assert_eq!(first_line(&long), format!("{}…", "é".repeat(60)));
    assert_eq!(first_line(&"x".repeat(60)), "x".repeat(60));
}

#[test]
fn edits_that_overlap_are_named_by_their_places_in_the_request() {
    let change = |old: &str, new: &str| Replace { old_text: old.into(), new_text: new.into() };
    let twice = [change("b", "x"), change("b", "y")];
    assert_eq!(
        edit_text("abc", &twice, "f").unwrap_err(),
        EditError::Overlap { first: 0, second: 1 }
    );
    let crossed = [change("e", "E"), change("bc", "x"), change("ab", "y")];
    assert_eq!(
        edit_text("abcde", &crossed, "f").unwrap_err(),
        EditError::Overlap { first: 2, second: 1 }
    );
}

#[test]
fn a_blank_last_line_is_a_line() {
    let mut sink = Sink::new();
    sink.push(b"a\n\n", no_file());
    let out = sink.tail();
    assert_eq!(out.text, "a\n");
    assert_eq!((out.first_line, out.last_line, out.total_lines), (1, 2, 2));
    assert!(out.complete && !out.first_line_overflows);
}
