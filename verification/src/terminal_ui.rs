//! The layout of the terminal screen, and what the output panel and the
//! status line show.

use vstd::prelude::*;
use crate::commands::{CommandOutput, OUTPUT_PANEL_MAX_HEIGHT};
use crate::text::{owned, str_equal};

verus! {

/// The rows of the terminal: the puzzle on top, then the output panel, the
/// reversion-block row and the status row.
#[derive(Debug, Clone, Copy, PartialEq, Eq, Structural)]
pub struct ScreenLayout {
    pub puzzle_height: u16,
    pub output_top: u16,
    pub output_height: u16,
    pub rev_row: u16,
    pub status_row: u16,
}

/// `a - b`, or `0` when `b > a`.
pub open spec fn sat_sub(a: int, b: int) -> int {
    if a >= b {
        a - b
    } else {
        0
    }
}

/// The smaller of `a` and `b`.
pub open spec fn min_of(a: int, b: int) -> int {
    if a <= b {
        a
    } else {
        b
    }
}

/// The first `width` characters of `s`.
pub open spec fn prefix_chars(s: Seq<char>, width: int) -> Seq<char> {
    s.subrange(0, min_of(width, s.len() as int))
}

/// The text printed after a status message when it repeats the panel's hint.
pub open spec fn panel_hint_text() -> Seq<char> {
    " (press ? to toggle panel)"@
}

impl ScreenLayout {
    /// The layout of a terminal `term_h` rows high: two rows at the bottom
    /// (as far as there are rows), an output panel of at most
    /// `OUTPUT_PANEL_MAX_HEIGHT` rows above them when it is visible, and
    /// the puzzle (at least one row) on top.
    pub fn new(term_h: u16, output_visible: bool) -> (r: Self)
        ensures
            ({
                let base_rows = min_of(term_h as int, 2);
                let output_height = if output_visible {
                    min_of(sat_sub(term_h as int, base_rows + 1), OUTPUT_PANEL_MAX_HEIGHT as int)
                } else {
                    0
                };
                let puzzle_height = if sat_sub(term_h as int, output_height + base_rows) >= 1 {
                    sat_sub(term_h as int, output_height + base_rows)
                } else {
                    1
                };
                &&& r.output_height == output_height
                &&& r.puzzle_height == puzzle_height
                &&& r.output_top == puzzle_height
                &&& r.rev_row == sat_sub(term_h as int, 2)
                &&& r.status_row == sat_sub(term_h as int, 1)
            }),
    {
        let base_rows = if term_h < 2 {
            term_h
        } else {
            2
        };
        let output_height = if output_visible {
            let room = term_h.saturating_sub(base_rows + 1);
            if room < OUTPUT_PANEL_MAX_HEIGHT {
                room
            } else {
                OUTPUT_PANEL_MAX_HEIGHT
            }
        } else {
            0
        };
        let reserved = output_height + base_rows;
        let left = term_h.saturating_sub(reserved);
        let puzzle_height = if left >= 1 {
            left
        } else {
            1
        };
        let output_top = puzzle_height;
        let rev_row = term_h.saturating_sub(2);
        let status_row = term_h.saturating_sub(1);
        ScreenLayout { puzzle_height, output_top, output_height, rev_row, status_row }
    }
}

/// The first `width` characters of `line`.
pub fn truncate_to_width(line: &str, width: u16) -> (r: String)
    ensures
        r@ == prefix_chars(line@, width as int),
{
    let len = line.unicode_len();
    let end = if (width as usize) < len {
        width as usize
    } else {
        len
    };
    owned(line.substring_char(0, end))
}

/// What each row of the output panel shows, top to bottom: the panel is
/// `output_height` rows high and shows the lines that end `scroll` lines
/// before the last one, each cut to the terminal width; a row past those
/// lines is left blank (`None`).
pub fn output_panel_rows(output: &CommandOutput, layout: ScreenLayout, term_w: u16) -> (r: Vec<
    Option<String>,
>)
    ensures
        r@.len() == layout.output_height,
        forall|i: int|
            0 <= i < r@.len() ==> {
                let end = sat_sub(output.lines@.len() as int, output.scroll as int);
                let start = sat_sub(end, layout.output_height as int);
                match #[trigger] r@[i] {
                    Some(s) => start + i < end && s@ == prefix_chars(
                        output.lines@[start + i]@,
                        term_w as int,
                    ),
                    None => start + i >= end,
                }
            },
{
    let mut rows: Vec<Option<String>> = Vec::new();
    if layout.output_height == 0 {
        return rows;
    }
    let end = output.lines.len().saturating_sub(output.scroll);
    let start = end.saturating_sub(layout.output_height as usize);
    let mut i: u16 = 0;
    while i < layout.output_height
        invariant
            end == sat_sub(output.lines@.len() as int, output.scroll as int),
            start == sat_sub(end as int, layout.output_height as int),
            i <= layout.output_height,
            rows@.len() == i,
            forall|k: int|
                0 <= k < i ==> match #[trigger] rows@[k] {
                    Some(s) => start + k < end && s@ == prefix_chars(
                        output.lines@[start + k]@,
                        term_w as int,
                    ),
                    None => start + k >= end,
                },
        decreases layout.output_height - i,
    {
        if (i as usize) < end - start {
            let line = truncate_to_width(output.lines[start + i as usize].as_str(), term_w);
            rows.push(Some(line));
        } else {
            rows.push(None);
        }
        i = i + 1;
    }
    rows
}

/// What the status row shows: a message, and after it, in a dim colour, a
/// note on how to open the panel.
#[derive(Debug, Clone)]
pub struct StatusLine {
    pub message: String,
    pub hint: Option<String>,
}

/// The status row for `message` on a terminal `term_w` columns wide. When
/// the message is the closed panel's hint, the note
/// `" (press ? to toggle panel)"` follows it, the message is cut to leave
/// room for the note (but to no less than one character), and the note is
/// cut to the columns that remain (left out when none remain). Otherwise
/// the message alone is cut to the terminal width.
pub fn status_line_parts(output: &CommandOutput, term_w: u16, message: &str) -> (r: StatusLine)
    ensures
        ({
            let show_hint = !output.open && (output.hint matches Some(h) && h@ == message@);
            if !show_hint {
                r.message@ == prefix_chars(message@, term_w as int) && r.hint is None
            } else {
                let width = sat_sub(term_w as int, panel_hint_text().len() as int);
                let shown = prefix_chars(message@, if width >= 1 { width } else { 1 });
                &&& r.message@ == shown
                &&& shown.len() < term_w ==> (r.hint matches Some(h) && h@ == prefix_chars(
                    panel_hint_text(),
                    term_w - shown.len(),
                ))
                &&& shown.len() >= term_w ==> r.hint is None
            }
        }),
{
    let show_hint = match &output.hint {
        Some(h) => str_equal(h.as_str(), message) && !output.open,
        None => false,
    };
    if !show_hint {
        return StatusLine { message: truncate_to_width(message, term_w), hint: None };
    }
    let hint_text = " (press ? to toggle panel)";
    proof {
        reveal_strlit(" (press ? to toggle panel)");
    }
    let hint_len = hint_text.unicode_len() as u16;
    let message_width = term_w.saturating_sub(hint_len);
    let display_message = truncate_to_width(
        message,
        if message_width >= 1 {
            message_width
        } else {
            1
        },
    );
    let used = display_message.as_str().unicode_len() as u16;
    let hint = if used < term_w {
        Some(truncate_to_width(hint_text, term_w - used))
    } else {
        None
    };
    StatusLine { message: display_message, hint }
}

} // verus!
