//! Where panes sit, which has the keyboard, and the terminals in them.

use jmds::event::{AgentEvent, Event, PtyEvent};
use jmds::pane::{Axis, PaneId, PaneKind, PaneSpec, PaneTree, Rect};
use jmds::pty::{exit_code, on_heard, output_step, title, Act, Heard, OutputStep, ReadOutcome, Status};
use jmds::ratio::{Ratio, HALF, MAX_RATIO, MIN_RATIO};

fn id(n: u64) -> PaneId {
    PaneId::new(n)
}

fn ratio(value: f32) -> Ratio {
    Ratio { bits: value.to_bits() }
}

/// Every cell of the area belongs to exactly one pane.
fn assert_tiles(tree: &PaneTree, area: Rect) {
    let rects = tree.rects(area);
    let covered: u32 = rects.iter().map(|(_, r)| r.area()).sum();
    assert_eq!(covered, area.area(), "rects must tile the area exactly: {rects:?}");
    for (i, (_, a)) in rects.iter().enumerate() {
        assert!(a.x + a.width <= area.x + area.width, "width overflow: {a:?}");
        assert!(a.y + a.height <= area.y + area.height, "height overflow: {a:?}");
        for (_, b) in rects.iter().skip(i + 1) {
            let disjoint = a.x + a.width <= b.x
                || b.x + b.width <= a.x
                || a.y + a.height <= b.y
                || b.y + b.height <= a.y;
            assert!(disjoint, "panes overlap: {a:?} and {b:?}");
        }
    }
}

#[test]
fn a_new_tree_has_one_pane_covering_everything() {
    let mut tree = PaneTree::new();
    tree.insert(id(1), Axis::Horizontal);
    assert_eq!(tree.leaves(), vec![id(1)]);
    assert_eq!(tree.focused_id(), Some(id(1)));
    assert_eq!(
        tree.rects(Rect::new(0, 0, 80, 24)),
        vec![(id(1), Rect::new(0, 0, 80, 24))]
    );
}

#[test]
fn a_split_divides_the_width_or_the_height() {
    let area = Rect::new(0, 0, 80, 24);
    let mut tree = PaneTree::new();
    tree.insert(id(1), Axis::Horizontal);
    tree.split(id(1), id(2), Axis::Horizontal);

    let rects = tree.rects(area);
    assert_eq!(rects[0], (id(1), Rect::new(0, 0, 40, 24)));
    assert_eq!(rects[1], (id(2), Rect::new(40, 0, 40, 24)));
    assert_tiles(&tree, area);

    let mut tree = PaneTree::new();
    tree.insert(id(1), Axis::Vertical);
    tree.split(id(1), id(2), Axis::Vertical);
    let rects = tree.rects(area);
    assert_eq!(rects[0], (id(1), Rect::new(0, 0, 80, 12)));
    assert_eq!(rects[1], (id(2), Rect::new(0, 12, 80, 12)));
    assert_tiles(&tree, area);
}

#[test]
fn splitting_the_root_again_nests_inside_the_existing_split() {
    let area = Rect::new(0, 0, 90, 30);
    let mut tree = PaneTree::new();
    tree.insert(id(1), Axis::Horizontal);
    tree.split(id(1), id(2), Axis::Horizontal);
    tree.split(id(1), id(3), Axis::Vertical);

    let rects = tree.rects(area);
    assert_tiles(&tree, area);
    assert!(rects.contains(&(id(1), Rect::new(0, 0, 45, 15))), "{rects:?}");
    assert!(rects.contains(&(id(3), Rect::new(0, 15, 45, 15))), "{rects:?}");
    assert!(rects.contains(&(id(2), Rect::new(45, 0, 45, 30))), "{rects:?}");
}

#[test]
fn closing_a_pane_gives_its_area_to_the_sibling_it_shared_a_split_with() {
    let area = Rect::new(0, 0, 80, 24);
    let mut tree = PaneTree::new();
    tree.insert(id(1), Axis::Horizontal);
    tree.split(id(1), id(2), Axis::Horizontal);

    assert!(tree.close(id(1)));
    assert_eq!(tree.leaves(), vec![id(2)]);
    assert_eq!(
        tree.rects(area),
        vec![(id(2), area)],
        "the survivor takes the whole split, not half of it"
    );
    assert_tiles(&tree, area);
}

#[test]
fn a_pane_that_arrives_with_its_own_id_keeps_the_counter_ahead_of_it() {
    let mut tree = PaneTree::new();
    tree.insert(id(7), Axis::Horizontal);
    assert_eq!(tree.next_id(), id(8));
}

#[test]
fn ids_are_never_reused_not_even_after_the_tree_empties() {
    let mut tree = PaneTree::new();
    let first = tree.next_id();
    tree.insert(first, Axis::Horizontal);
    tree.close(first);

    assert!(tree.is_empty());
    assert_ne!(
        tree.next_id(),
        first,
        "an id that outlives its pane must not come to mean a new one"
    );
}

#[test]
fn focus_goes_to_the_new_pane_and_returns_to_the_previous_one_when_it_closes() {
    let mut tree = PaneTree::new();
    tree.insert(id(1), Axis::Horizontal);
    tree.split(id(1), id(2), Axis::Horizontal);

    assert_eq!(tree.focused_id(), Some(id(2)));
    assert_eq!(tree.previous_focus(), Some(id(1)));

    tree.close(id(2));
    assert_eq!(
        tree.focused_id(),
        Some(id(1)),
        "closing the pane the agent opened puts the user back where they were"
    );
}

#[test]
fn closing_a_pane_with_no_previous_focus_uses_layout_order() {
    let mut tree = PaneTree::new();
    tree.insert(id(1), Axis::Horizontal);
    tree.split(id(1), id(2), Axis::Horizontal);
    tree.split(id(2), id(3), Axis::Horizontal);
    tree.set_focus(id(3));
    tree.set_focus(id(2));
    tree.close(id(3));

    assert!(tree.contains(id(2)));
    assert_eq!(tree.focused_id(), Some(id(2)));
}

#[test]
fn closing_the_focused_pane_prefers_where_focus_came_from() {
    let mut tree = PaneTree::new();
    tree.insert(id(1), Axis::Horizontal);
    tree.split(id(1), id(2), Axis::Horizontal);
    tree.split(id(2), id(3), Axis::Horizontal);

    tree.set_focus(id(1));
    tree.set_focus(id(3));
    assert_eq!(tree.previous_focus(), Some(id(1)));

    tree.close(id(3));
    assert_eq!(tree.focused_id(), Some(id(1)));
}

#[test]
fn a_ratio_is_clamped_so_no_pane_can_be_squeezed_away() {
    let area = Rect::new(0, 0, 100, 20);
    let mut tree = PaneTree::new();
    tree.insert(id(1), Axis::Horizontal);
    tree.split(id(1), id(2), Axis::Horizontal);

    assert!(tree.set_ratio(id(2), ratio(0.99)));
    assert_eq!(tree.ratio_of(id(2)), Some(Ratio { bits: MAX_RATIO }));
    assert!(tree.set_ratio(id(2), ratio(-3.0)));
    assert_eq!(tree.ratio_of(id(2)), Some(Ratio { bits: MIN_RATIO }));

    let rects = tree.rects(area);
    assert!(rects.iter().all(|(_, r)| r.width >= 10), "{rects:?}");
    assert_tiles(&tree, area);
}

#[test]
fn a_ratio_that_is_not_a_number_falls_back_to_the_middle() {
    let mut tree = PaneTree::new();
    tree.insert(id(1), Axis::Horizontal);
    tree.split(id(1), id(2), Axis::Horizontal);
    tree.set_ratio(id(2), ratio(f32::NAN));
    assert_eq!(tree.ratio_of(id(2)), Some(ratio(0.5)));
}

#[test]
fn focus_cycles_through_layout_order_and_wraps() {
    let mut tree = PaneTree::new();
    tree.insert(id(1), Axis::Horizontal);
    tree.split(id(1), id(2), Axis::Horizontal);
    tree.split(id(2), id(3), Axis::Horizontal);

    tree.set_focus(id(1));
    assert_eq!(tree.cycle_focus(), Some(id(2)));
    assert_eq!(tree.cycle_focus(), Some(id(3)));
    assert_eq!(tree.cycle_focus(), Some(id(1)));
}

#[test]
fn focus_previous_swaps_back_and_forth() {
    let mut tree = PaneTree::new();
    tree.insert(id(1), Axis::Horizontal);
    tree.split(id(1), id(2), Axis::Horizontal);
    tree.set_focus(id(1));

    assert!(tree.focus_previous());
    assert_eq!(tree.focused_id(), Some(id(2)));
    assert!(tree.focus_previous());
    assert_eq!(tree.focused_id(), Some(id(1)));
}

#[test]
fn splitting_and_focusing_something_that_is_not_open_is_refused() {
    let mut tree = PaneTree::new();
    tree.insert(id(1), Axis::Horizontal);
    assert!(!tree.split(id(9), id(2), Axis::Horizontal));
    assert!(!tree.set_focus(id(9)));
    assert!(!tree.close(id(9)));
    assert!(!tree.set_ratio(id(9), ratio(0.5)));
    assert_eq!(tree.leaves(), vec![id(1)]);
}

#[test]
fn a_rectangle_holds_the_cells_inside_it_and_not_its_edges() {
    let rect = Rect::new(2, 3, 4, 5);
    assert!(rect.contains(2, 3), "the top left corner is inside");
    assert!(rect.contains(5, 7), "the last cell is inside");
    assert!(!rect.contains(6, 7), "the right edge is outside");
    assert!(!rect.contains(5, 8), "the bottom edge is outside");
    assert!(!rect.contains(1, 3) && !rect.contains(2, 2));
    assert!(!rect.contains(u16::MAX, u16::MAX), "far away cannot wrap in");
    assert!(!rect.contains(0, 0));
}

#[test]
fn an_empty_tree_has_no_rects_focus_or_ratios() {
    let mut tree = PaneTree::new();
    assert!(tree.is_empty());
    assert_eq!(tree.focused_id(), None);
    assert!(tree.cycle_focus().is_none());
    assert!(tree.rects(Rect::new(0, 0, 10, 10)).is_empty());
    assert!(!tree.set_ratio(id(1), ratio(0.5)));
}

#[test]
fn closing_the_last_pane_leaves_an_empty_tree() {
    let mut tree = PaneTree::new();
    tree.insert(id(1), Axis::Horizontal);
    assert!(tree.close(id(1)));
    assert!(tree.is_empty());
    assert_eq!(tree.focused_id(), None);
    assert_eq!(tree.previous_focus(), None);
}

#[test]
fn every_kind_round_trips_through_its_config_name() {
    for kind in PaneKind::ALL {
        assert_eq!(PaneKind::from_name(kind.name()), Some(kind));
    }
    assert_eq!(PaneKind::from_name("nothing"), None);
}

#[test]
fn a_pane_takes_its_kind_as_its_default_title() {
    let spec = PaneSpec::new(id(1), PaneKind::FileTree);
    assert_eq!(spec.title, "files");
    assert_eq!(spec.with_title("src/").title, "src/");
}

#[test]
fn a_split_keeps_the_panes_that_were_there() {
    let mut tree = PaneTree::new();
    tree.insert(id(1), Axis::Horizontal);
    assert!(tree.split(id(1), id(2), Axis::Vertical));
    assert!(tree.split(id(1), id(3), Axis::Horizontal));
    assert_eq!(tree.len(), 3);
    assert_eq!(tree.leaves(), vec![id(1), id(3), id(2)]);
    assert!(tree.close(id(3)));
    assert_eq!(tree.leaves(), vec![id(1), id(2)]);
    tree.reserve(id(40));
    assert_eq!(tree.next_id(), id(41));
    assert_eq!(id(41).get(), 41);
    assert_eq!(id(41).text(), "41");
}

// Ratios --------------------------------------------------------------------------------------

#[test]
fn the_bounds_of_a_ratio_are_the_numbers_they_stand_for() {
    assert_eq!(f32::from_bits(MIN_RATIO), 0.1);
    assert_eq!(f32::from_bits(MAX_RATIO), 0.9);
    assert_eq!(f32::from_bits(HALF), 0.5);
    assert_eq!(Ratio::half(), ratio(0.5));
}

#[test]
fn clamping_agrees_with_floating_point() {
    for bits in (0..=u32::MAX).step_by(9973) {
        let value = f32::from_bits(bits);
        let expected = if value.is_finite() { value.clamp(0.1, 0.9) } else { 0.5 };
        let got = f32::from_bits(Ratio { bits }.clamped().bits);
        assert_eq!(got, expected, "{value}");
    }
    for value in [0.0f32, -0.0, 0.1, 0.9, 0.5, 1.0, f32::MIN_POSITIVE, f32::INFINITY] {
        let expected = if value.is_finite() { value.clamp(0.1, 0.9) } else { 0.5 };
        assert_eq!(f32::from_bits(ratio(value).clamped().bits), expected, "{value}");
    }
}

#[test]
fn a_part_of_a_length_agrees_with_floating_point() {
    for step in 0..=80u32 {
        let value = (0.1 + step as f32 * 0.01).clamp(0.1, 0.9);
        for length in 0..=u16::MAX {
            let expected = (f32::from(length) * value).round() as u16;
            assert_eq!(ratio(value).part_of(length), expected, "{length} * {value}");
        }
    }
    for length in [1u16, 2, 79, 80, 100, 1000, 65535] {
        let mut bits = MIN_RATIO;
        while bits <= MAX_RATIO {
            let value = f32::from_bits(bits);
            let expected = (f32::from(length) * value).round() as u16;
            assert_eq!(Ratio { bits }.part_of(length), expected, "{length} * {value}");
            bits += 1237;
        }
    }
}

// Terminals -----------------------------------------------------------------------------------

#[test]
fn a_terminal_is_called_after_its_command_or_its_shell() {
    assert_eq!(title("/bin/sh", "printf 'hello pty\\n'"), "printf 'hello pty\\n'");
    assert_eq!(title("/bin/sh", "first\nsecond"), "first");
    assert_eq!(title("/bin/sh", ""), "sh");
    assert_eq!(title("zsh", ""), "zsh");
    assert_eq!(title("/", ""), "/");
    assert_eq!(title("..", ""), "..");
    assert_eq!(title("/bin/", ""), "bin");
}

#[test]
fn a_command_that_was_killed_has_no_code() {
    assert_eq!(exit_code(Some(Status { signalled: false, code: 7 })), Some(7));
    assert_eq!(exit_code(Some(Status { signalled: true, code: 9 })), None);
    assert_eq!(exit_code(None), None);
}

#[test]
fn what_is_read_is_published_until_there_is_no_more() {
    assert_eq!(output_step(ReadOutcome::Bytes(5)), OutputStep::Publish(5));
    assert_eq!(output_step(ReadOutcome::Bytes(0)), OutputStep::End);
    assert_eq!(output_step(ReadOutcome::Interrupted), OutputStep::Again);
    assert_eq!(output_step(ReadOutcome::Failed), OutputStep::End);
}

#[test]
fn a_terminal_listens_to_its_own_pane_only() {
    let mine = |event| on_heard(id(7), Heard::Event(Event::Pty(event)), true);
    assert_eq!(
        mine(PtyEvent::Input { id: id(7), bytes: b"ls\n".to_vec() }),
        Act::Write(b"ls\n".to_vec())
    );
    assert_eq!(mine(PtyEvent::Input { id: id(8), bytes: b"ls\n".to_vec() }), Act::Nothing);
    assert_eq!(
        mine(PtyEvent::Resize { id: id(7), rows: 40, cols: 100 }),
        Act::Resize { rows: 40, cols: 100 }
    );
    assert_eq!(mine(PtyEvent::Kill { id: id(7) }), Act::Kill);
    assert_eq!(mine(PtyEvent::Kill { id: id(1) }), Act::Nothing);
    assert_eq!(mine(PtyEvent::Exited { id: id(7), code: None }), Act::Stop);
    assert_eq!(mine(PtyEvent::Started { id: id(7), title: "sh".into() }), Act::Nothing);
    let other = Event::Agent(AgentEvent::Content("x".into()));
    assert_eq!(on_heard(id(7), Heard::Event(other), true), Act::Nothing);
    assert_eq!(on_heard(id(7), Heard::Lagged, true), Act::Nothing);
    assert_eq!(on_heard(id(7), Heard::Lagged, false), Act::Stop);
    assert_eq!(on_heard(id(7), Heard::Closed, true), Act::Stop);
}

#[test]
fn a_rectangle_past_the_last_cell_does_not_wrap_around() {
    let rect = Rect::new(u16::MAX, 0, 10, 1);
    assert!(rect.contains(u16::MAX, 0));
    assert!(!rect.contains(0, 0), "a cell to the left is never a hit");
    assert!(!Rect::new(0, u16::MAX, 1, 10).contains(0, 0), "nor is one above");
}

#[test]
fn a_copy_of_a_tree_is_a_tree_of_its_own() {
    let mut tree = PaneTree::new();
    tree.insert(id(1), Axis::Horizontal);
    tree.split(id(1), id(2), Axis::Horizontal);
    let copy = tree.clone();
    assert_eq!(copy, tree);
    tree.close(id(2));
    assert_eq!(copy.leaves(), vec![id(1), id(2)]);
}
