use flat_hypercube::commands::{
    command_help_lines, CommandInput, CommandKeyAction, CommandOutput, KeyCode,
    OUTPUT_HISTORY_LIMIT, OUTPUT_PANEL_MAX_HEIGHT, OUTPUT_PANEL_TOGGLE_KEY,
};

fn typed(text: &str) -> CommandInput {
    let mut input = CommandInput::default();
    for ch in text.chars() {
        input.push_char(ch);
    }
    input
}

fn output_with(lines: &[&str]) -> CommandOutput {
    let mut output = CommandOutput::default();
    output.push_lines(lines.iter().map(|l| l.to_string()).collect());
    output
}

#[test]
fn constants_of_the_command_line() {
    assert_eq!(OUTPUT_HISTORY_LIMIT, 500);
    assert_eq!(OUTPUT_PANEL_MAX_HEIGHT, 10);
    assert_eq!(OUTPUT_PANEL_TOGGLE_KEY, '?');
}

#[test]
fn typing_and_backspace_edit_the_buffer() {
    let mut input = typed("helo");
    assert_eq!(input.buffer, "helo");
    input.backspace();
    input.push_char('p');
    assert_eq!(input.buffer, "help");
    input.clear();
    assert_eq!(input.buffer, "");
    input.backspace();
    assert_eq!(input.buffer, "");
    assert_eq!(input.history_cursor, None);
}

#[test]
fn submit_trims_and_records_history() {
    let mut input = typed("  status \t");
    assert_eq!(input.submit(), Some("status".to_string()));
    assert_eq!(input.buffer, "");
    assert_eq!(input.history, vec!["status".to_string()]);
}

#[test]
fn submit_of_blank_input_records_nothing() {
    let mut input = typed("   ");
    assert_eq!(input.submit(), None);
    assert!(input.history.is_empty());
    assert_eq!(input.buffer, "");
}

#[test]
fn history_walks_back_and_forth() {
    let mut input = CommandInput::default();
    input.history_prev();
    assert_eq!(input.buffer, "");
    assert_eq!(input.history_cursor, None);
    for cmd in ["help", "status", "moves"] {
        for ch in cmd.chars() {
            input.push_char(ch);
        }
        input.submit();
    }
    input.history_prev();
    assert_eq!(input.buffer, "moves");
    assert_eq!(input.history_cursor, Some(2));
    input.history_prev();
    input.history_prev();
    assert_eq!(input.buffer, "help");
    input.history_prev();
    assert_eq!(input.buffer, "help");
    assert_eq!(input.history_cursor, Some(0));
    input.history_next();
    assert_eq!(input.buffer, "status");
    input.history_next();
    input.history_next();
    assert_eq!(input.buffer, "");
    assert_eq!(input.history_cursor, None);
    input.history_next();
    assert_eq!(input.history_cursor, None);
}

#[test]
fn handle_key_reports_what_the_caller_does() {
    let mut input = CommandInput::default();
    let mut output = output_with(&["a"]);
    let before = output.clone();
    assert_eq!(input.handle_key(KeyCode::Char('h'), &mut output), CommandKeyAction::NoAction);
    assert_eq!(input.handle_key(KeyCode::Char('x'), &mut output), CommandKeyAction::NoAction);
    assert_eq!(input.handle_key(KeyCode::Backspace, &mut output), CommandKeyAction::NoAction);
    assert_eq!(input.handle_key(KeyCode::Char('i'), &mut output), CommandKeyAction::NoAction);
    assert_eq!(input.handle_key(KeyCode::Other, &mut output), CommandKeyAction::NoAction);
    assert_eq!(
        input.handle_key(KeyCode::Enter, &mut output),
        CommandKeyAction::Submit("hi".to_string())
    );
    assert_eq!(input.handle_key(KeyCode::Enter, &mut output), CommandKeyAction::NoAction);
    assert_eq!(input.handle_key(KeyCode::Up, &mut output), CommandKeyAction::NoAction);
    assert_eq!(input.buffer, "hi");
    assert_eq!(input.handle_key(KeyCode::Down, &mut output), CommandKeyAction::NoAction);
    assert_eq!(input.buffer, "");
    input.push_char('q');
    assert_eq!(input.handle_key(KeyCode::Esc, &mut output), CommandKeyAction::Cancel);
    assert_eq!(input.buffer, "");
    assert_eq!(output.lines, before.lines);
    assert_eq!(output.scroll, before.scroll);
}

#[test]
fn page_keys_scroll_only_an_open_panel() {
    let mut input = CommandInput::default();
    let mut output = output_with(&["a", "b"]);
    assert_eq!(input.handle_key(KeyCode::PageUp, &mut output), CommandKeyAction::NoAction);
    assert_eq!(output.scroll, 0);
    output.toggle();
    input.handle_key(KeyCode::PageUp, &mut output);
    assert_eq!(output.scroll, 5);
    input.handle_key(KeyCode::PageUp, &mut output);
    assert_eq!(output.scroll, 10);
    input.handle_key(KeyCode::PageDown, &mut output);
    assert_eq!(output.scroll, 5);
    input.handle_key(KeyCode::PageDown, &mut output);
    input.handle_key(KeyCode::PageDown, &mut output);
    assert_eq!(output.scroll, 0);
}

#[test]
fn page_up_saturates() {
    let mut output = output_with(&["a"]);
    output.toggle();
    output.scroll = usize::MAX - 2;
    output.page_up();
    assert_eq!(output.scroll, usize::MAX);
}

#[test]
fn push_line_keeps_the_last_lines() {
    let mut output = CommandOutput::default();
    for i in 0..(OUTPUT_HISTORY_LIMIT + 3) {
        output.push_line(i.to_string());
    }
    assert_eq!(output.lines.len(), OUTPUT_HISTORY_LIMIT);
    assert_eq!(output.lines[0], "3");
    assert_eq!(output.lines[OUTPUT_HISTORY_LIMIT - 1], (OUTPUT_HISTORY_LIMIT + 2).to_string());
    assert_eq!(output.scroll, 0);
}

#[test]
fn push_lines_matches_push_line() {
    let lines: Vec<String> = (0..(OUTPUT_HISTORY_LIMIT + 7)).map(|i| format!("line {i}")).collect();
    let mut one_by_one = output_with(&["x", "y"]);
    one_by_one.scroll = 4;
    let mut at_once = one_by_one.clone();
    for line in &lines {
        one_by_one.push_line(line.clone());
    }
    at_once.push_lines(lines);
    assert_eq!(one_by_one.lines, at_once.lines);
    assert_eq!(one_by_one.scroll, at_once.scroll);
}

#[test]
fn push_lines_of_nothing_changes_nothing() {
    let mut output = output_with(&["x"]);
    output.scroll = 3;
    output.push_lines(Vec::new());
    assert_eq!(output.lines, vec!["x".to_string()]);
    assert_eq!(output.scroll, 3);
}

#[test]
fn command_echo_skips_panel() {
    let mut output = CommandOutput::default();
    output.push_command_echo("help");
    output.push_command_echo("PaNeL");
    output.push_command_echo("panel");
    output.push_command_echo("panels");
    assert_eq!(output.lines, vec!["> /help".to_string(), "> /panels".to_string()]);
}

#[test]
fn toggle_flips_a_panel_with_lines() {
    let mut output = CommandOutput::default();
    assert_eq!(output.toggle(), Some("output panel is empty"));
    assert!(!output.open);
    output.push_line("a".to_string());
    output.hint = Some("a".to_string());
    assert_eq!(output.toggle(), Some("output panel shown"));
    assert!(output.open);
    assert!(output.hint.is_none());
    assert!(output.visible());
    assert_eq!(output.toggle(), Some("output panel hidden"));
    assert!(!output.visible());
    assert_eq!(output.lines, vec!["a".to_string()]);
}

#[test]
fn clear_empties_and_closes() {
    let mut output = output_with(&["a", "b"]);
    output.toggle();
    output.scroll = 1;
    output.hint = Some("b".to_string());
    output.clear();
    assert!(output.lines.is_empty());
    assert_eq!(output.scroll, 0);
    assert!(!output.open);
    assert!(output.hint.is_none());
    assert!(!output.visible());
}

#[test]
fn clamp_scroll_bounds_the_scroll() {
    let mut output = output_with(&["1", "2", "3", "4", "5", "6", "7"]);
    output.scroll = 100;
    output.clamp_scroll(3);
    assert_eq!(output.scroll, 4);
    output.scroll = 2;
    output.clamp_scroll(3);
    assert_eq!(output.scroll, 2);
    output.clamp_scroll(10);
    assert_eq!(output.scroll, 0);
    output.scroll = 2;
    output.clamp_scroll(0);
    assert_eq!(output.scroll, 0);
}

#[test]
fn closed_panel_takes_a_hint() {
    let mut output = output_with(&["a", "b", "c"]);
    output.set_closed_hint_from(1);
    assert_eq!(output.hint.as_deref(), Some("b"));
    output.set_closed_hint_from(3);
    assert_eq!(output.hint, None);
    output.set_closed_hint_from(0);
    output.toggle();
    output.set_closed_hint_from(2);
    assert_eq!(output.hint, None);
}

#[test]
fn help_lists_the_commands() {
    let lines = command_help_lines();
    assert_eq!(lines.len(), 10);
    assert_eq!(lines[0], "commands:");
    assert!(lines.iter().any(|l| l.starts_with("/status")));
    assert_eq!(lines[9], "/rev start|stop|unwind|comm - manage reversion blocks");
}
