//! What is shown of a long text.

use jmds::tools::truncate::{cap_columns, head, tail, MAX_BYTES, MAX_LINES};

fn numbered(n: usize) -> String {
    (1..=n).map(|i| format!("line {i}")).collect::<Vec<_>>().join("\n")
}

#[test]
fn a_short_file_comes_back_whole() {
    let text = numbered(3);
    let out = head(&text, 1, MAX_LINES, MAX_BYTES);
    assert_eq!(out.text, text);
    assert!(out.complete);
    assert_eq!((out.first_line, out.last_line), (1, 3));
    assert_eq!(out.total_lines, 3);
}

#[test]
fn a_long_file_is_cut_at_a_line_boundary_and_says_where_to_continue() {
    let text = numbered(10);
    let out = head(&text, 1, 3, MAX_BYTES);
    assert_eq!(out.text, "line 1\nline 2\nline 3");
    assert!(!out.complete);
    assert_eq!((out.first_line, out.last_line), (1, 3));
    assert_eq!(out.total_lines, 10);
    assert_eq!(out.next_offset(), Some(4));
}

#[test]
fn an_offset_starts_where_the_last_answer_stopped() {
    let text = numbered(10);
    let out = head(&text, 4, 3, MAX_BYTES);
    assert_eq!(out.text, "line 4\nline 5\nline 6");
    assert_eq!((out.first_line, out.last_line), (4, 6));
    assert_eq!(out.next_offset(), Some(7));
}

#[test]
fn an_offset_past_the_end_is_an_empty_answer_and_not_an_error() {
    let text = numbered(3);
    let out = head(&text, 99, MAX_LINES, MAX_BYTES);
    assert!(out.is_empty());
    assert!(out.complete);
    assert_eq!(out.total_lines, 3);
    assert_eq!(
        out.last_line, 3,
        "nothing is shown, but the input still had three lines"
    );
}

#[test]
fn the_byte_bound_can_cut_before_the_line_bound_does() {
    let text = "aaaa\nbbbb\ncccc\ndddd";
    let out = head(text, 1, MAX_LINES, 11);
    assert_eq!(out.text, "aaaa\nbbbb", "two lines and a newline fit in 11 bytes");
    assert!(!out.complete);
}

#[test]
fn a_first_line_longer_than_the_whole_budget_is_reported_instead_of_cut_in_half() {
    let text = format!("{}\nshort", "x".repeat(1000));
    let out = head(&text, 1, MAX_LINES, 100);
    assert!(out.first_line_overflows);
    assert!(out.is_empty());
    assert_eq!(out.total_lines, 2);
}

#[test]
fn the_tail_keeps_the_end_where_the_errors_are() {
    let text = numbered(10);
    let out = tail(&text, 3, MAX_BYTES);
    assert_eq!(out.text, "line 8\nline 9\nline 10");
    assert!(!out.complete);
    assert_eq!((out.first_line, out.last_line), (8, 10));
    assert_eq!(out.total_lines, 10);
    assert_eq!(
        out.next_offset(),
        None,
        "the tail is the end: nothing to ask for next"
    );
}

#[test]
fn a_tail_that_fits_is_complete() {
    let text = numbered(3);
    let out = tail(&text, 10, MAX_BYTES);
    assert_eq!(out.text, text);
    assert!(out.complete);
    assert_eq!(
        (out.first_line, out.last_line),
        (1, 3),
        "everything is shown, so it starts at the top"
    );
}

#[test]
fn an_empty_input_is_not_a_special_case_for_either_shape() {
    for out in [head("", 1, MAX_LINES, MAX_BYTES), tail("", MAX_LINES, MAX_BYTES)] {
        assert!(out.is_empty());
        assert_eq!(out.total_lines, 0);
    }
}

#[test]
fn a_very_long_line_is_cut_with_a_mark_and_the_rest_is_left_alone() {
    let long = "x".repeat(1000);
    let text = format!("short\n{long}\nalso short");
    let capped = cap_columns(&text, 100);
    let lines: Vec<&str> = capped.split('\n').collect();
    assert_eq!(lines[0], "short");
    assert_eq!(lines[2], "also short");
    assert!(lines[1].starts_with(&"x".repeat(100)), "{:?}", &lines[1][..80]);
    assert!(lines[1].ends_with("…[+900 bytes]"), "{}", &lines[1][90..]);
}

#[test]
fn cutting_a_column_never_splits_a_character() {
    let text = "①②③";
    let capped = cap_columns(text, 5);
    assert!(capped.starts_with('①'), "{capped}");
    assert_eq!(capped.chars().filter(|c| *c == '①').count(), 1);
    assert_eq!(capped, "①…[+6 bytes]");
}

#[test]
fn neither_shape_ever_returns_a_partial_line() {
    let text = numbered(200);
    for max_bytes in [1, 7, 8, 20, 100, 1000] {
        let out = head(&text, 1, MAX_LINES, max_bytes);
        for line in out.text.lines() {
            assert!(line.starts_with("line "), "cut line: {line:?}");
        }
        let out = tail(&text, MAX_LINES, max_bytes);
        for line in out.text.lines() {
            assert!(line.starts_with("line "), "cut line: {line:?}");
        }
    }
}

#[test]
fn reading_on_from_every_offset_shows_every_line_once() {
    let text = numbered(57);
    let mut seen = Vec::new();
    let mut offset = Some(1);
    while let Some(from) = offset {
        let out = head(&text, from, 5, 40);
        assert_eq!(out.first_line, from);
        seen.extend(out.text.lines().map(str::to_string));
        offset = out.next_offset();
    }
    assert_eq!(seen.join("\n"), text);
}

#[test]
fn only_a_head_reports_a_first_line_that_overflows() {
    let text = "x".repeat(1000);
    assert!(head(&text, 1, MAX_LINES, 100).first_line_overflows);
    let out = tail(&text, MAX_LINES, 100);
    assert!(!out.first_line_overflows);
    assert!(out.is_empty() && !out.complete);
    assert_eq!(out.next_offset(), None);
}

#[test]
fn blank_lines_are_shown_too() {
    let out = head("\nfoo", 1, MAX_LINES, MAX_BYTES);
    assert_eq!(out.text, "\nfoo");
    assert_eq!((out.first_line, out.last_line, out.total_lines), (1, 2, 2));
    assert!(out.complete && !out.first_line_overflows);

    let out = head("\n\n\nx\n\ny\n", 1, MAX_LINES, MAX_BYTES);
    assert_eq!(out.text, "\n\n\nx\n\ny");
    assert!(out.complete);
    let out = head("\n\nx", 1, 2, MAX_BYTES);
    assert_eq!(out.text, "\n");
    assert_eq!(out.next_offset(), Some(3));
    let out = head("a\nb", 1, 0, MAX_BYTES);
    assert_eq!((out.text.as_str(), out.last_line, out.complete), ("a", 1, false));
    assert_eq!(out.line_count(), 1);
}
