use flat_hypercube::commands::CommandOutput;
use flat_hypercube::terminal_ui::{output_panel_rows, status_line_parts, truncate_to_width, ScreenLayout};

#[test]
fn layout_with_hidden_panel() {
    let layout = ScreenLayout::new(30, false);
    assert_eq!(
        layout,
        ScreenLayout {
            puzzle_height: 28,
            output_top: 28,
            output_height: 0,
            rev_row: 28,
            status_row: 29,
        }
    );
}

#[test]
fn layout_with_visible_panel() {
    let layout = ScreenLayout::new(30, true);
    assert_eq!(layout.output_height, 10);
    assert_eq!(layout.puzzle_height, 18);
    assert_eq!(layout.output_top, 18);
    assert_eq!(layout.rev_row, 28);
    assert_eq!(layout.status_row, 29);

    let small = ScreenLayout::new(8, true);
    assert_eq!(small.output_height, 5);
    assert_eq!(small.puzzle_height, 1);
}

#[test]
fn layout_of_tiny_terminals() {
    let one = ScreenLayout::new(1, true);
    assert_eq!(one.output_height, 0);
    assert_eq!(one.puzzle_height, 1);
    assert_eq!(one.rev_row, 0);
    assert_eq!(one.status_row, 0);
    let none = ScreenLayout::new(0, true);
    assert_eq!(none.puzzle_height, 1);
    assert_eq!(none.status_row, 0);
}

#[test]
fn truncation_counts_characters() {
    assert_eq!(truncate_to_width("héllo", 2), "hé");
    assert_eq!(truncate_to_width("abc", 10), "abc");
    assert_eq!(truncate_to_width("abc", 0), "");
}

#[test]
fn panel_rows_show_the_scrolled_tail() {
    let mut output = CommandOutput::default();
    for i in 0..6 {
        output.push_line(format!("line {i}"));
    }
    output.toggle();
    output.scroll = 1;
    let layout = ScreenLayout::new(6, true);
    assert_eq!(layout.output_height, 3);
    let rows = output_panel_rows(&output, layout, 5);
    assert_eq!(
        rows,
        vec![
            Some("line ".to_string()),
            Some("line ".to_string()),
            Some("line ".to_string()),
        ]
    );
    let rows = output_panel_rows(&output, layout, 20);
    assert_eq!(
        rows,
        vec![
            Some("line 2".to_string()),
            Some("line 3".to_string()),
            Some("line 4".to_string()),
        ]
    );
}

#[test]
fn panel_rows_leave_blank_rows_below_few_lines() {
    let mut output = CommandOutput::default();
    output.push_line("only".to_string());
    let layout = ScreenLayout::new(30, true);
    let rows = output_panel_rows(&output, layout, 80);
    assert_eq!(rows.len(), 10);
    assert_eq!(rows[0], Some("only".to_string()));
    assert!(rows[1..].iter().all(|r| r.is_none()));
    assert!(output_panel_rows(&output, ScreenLayout::new(30, false), 80).is_empty());
}

#[test]
fn status_line_without_hint() {
    let output = CommandOutput::default();
    let line = status_line_parts(&output, 4, "solved!");
    assert_eq!(line.message, "solv");
    assert_eq!(line.hint, None);
}

#[test]
fn status_line_with_hint_of_closed_panel() {
    let mut output = CommandOutput::default();
    output.push_line("commands:".to_string());
    output.set_closed_hint_from(0);
    let line = status_line_parts(&output, 80, "commands:");
    assert_eq!(line.message, "commands:");
    assert_eq!(line.hint.as_deref(), Some(" (press ? to toggle panel)"));

    let narrow = status_line_parts(&output, 30, "commands:");
    assert_eq!(narrow.message, "comm");
    assert_eq!(narrow.hint.as_deref(), Some(" (press ? to toggle panel)"));

    let tiny = status_line_parts(&output, 3, "commands:");
    assert_eq!(tiny.message, "c");
    assert_eq!(tiny.hint.as_deref(), Some(" ("));

    let one = status_line_parts(&output, 1, "commands:");
    assert_eq!(one.message, "c");
    assert_eq!(one.hint, None);

    let other = status_line_parts(&output, 80, "solved!");
    assert_eq!(other.hint, None);

    output.toggle();
    let open = status_line_parts(&output, 80, "commands:");
    assert_eq!(open.hint, None);
}
