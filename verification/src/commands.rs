//! The slash-command line: the input buffer with its history, and the
//! output panel that collects what commands print.

use vstd::prelude::*;
use crate::text::{append_str, eq_ignore_ascii_case, owned, string_pop, string_push, trim_str, trimmed};

verus! {

/// The most lines the output panel keeps.
pub const OUTPUT_HISTORY_LIMIT: usize = 500;

/// The most rows the output panel takes on screen.
pub const OUTPUT_PANEL_MAX_HEIGHT: u16 = 10;

/// The key that folds and unfolds the output panel.
pub const OUTPUT_PANEL_TOGGLE_KEY: char = '?';

/// The keys that the command line reacts to.
#[derive(Clone, Copy, Debug, PartialEq, Eq, Structural)]
pub enum KeyCode {
    Esc,
    Enter,
    Backspace,
    Char(char),
    Up,
    Down,
    PageUp,
    PageDown,
    Other,
}

/// The command being typed, and the commands entered before.
#[derive(Debug, Clone)]
pub struct CommandInput {
    pub buffer: String,
    pub history: Vec<String>,
    pub history_cursor: Option<usize>,
}

/// What a key press on the command line asks of the caller.
#[derive(Debug, Clone, PartialEq, Eq)]
pub enum CommandKeyAction {
    NoAction,
    Cancel,
    Submit(String),
}

/// The lines that commands printed, and how the panel shows them.
#[derive(Debug, Clone)]
pub struct CommandOutput {
    pub lines: Vec<String>,
    pub scroll: usize,
    pub open: bool,
    pub hint: Option<String>,
}

/// The last `k` elements of `s` (all of it when it is shorter).
pub open spec fn keep_last<T>(s: Seq<T>, k: nat) -> Seq<T> {
    if s.len() > k {
        s.subrange(s.len() - k, s.len() as int)
    } else {
        s
    }
}

/// The history entry that stepping back from `cursor` shows, in a history
/// of `len` entries.
pub open spec fn prev_index(cursor: Option<usize>, len: nat) -> int {
    match cursor {
        None => len - 1,
        Some(i) => if i == 0 {
            0
        } else {
            i - 1
        },
    }
}

impl Default for CommandInput {
    fn default() -> (r: Self)
        ensures
            r.buffer@ == Seq::<char>::empty(),
            r.history@.len() == 0,
            r.history_cursor is None,
    {
        CommandInput { buffer: String::new(), history: Vec::new(), history_cursor: None }
    }
}

impl Default for CommandOutput {
    fn default() -> (r: Self)
        ensures
            r.lines@.len() == 0,
            r.scroll == 0,
            !r.open,
            r.hint is None,
    {
        CommandOutput { lines: Vec::new(), scroll: 0, open: false, hint: None }
    }
}

impl CommandInput {
    /// Empties the buffer and leaves the history.
    pub fn clear(&mut self)
        ensures
            final(self).buffer@ == Seq::<char>::empty(),
            final(self).history_cursor is None,
            final(self).history == old(self).history,
    {
        self.buffer = String::new();
        self.history_cursor = None;
    }

    /// Types `ch`.
    pub fn push_char(&mut self, ch: char)
        ensures
            final(self).buffer@ == old(self).buffer@.push(ch),
            final(self).history_cursor is None,
            final(self).history == old(self).history,
    {
        string_push(&mut self.buffer, ch);
        self.history_cursor = None;
    }

    /// Deletes the last character typed, if any.
    pub fn backspace(&mut self)
        ensures
            final(self).buffer@ == (if old(self).buffer@.len() == 0 {
                old(self).buffer@
            } else {
                old(self).buffer@.drop_last()
            }),
            final(self).history_cursor is None,
            final(self).history == old(self).history,
    {
        string_pop(&mut self.buffer);
        self.history_cursor = None;
    }

    /// Takes the typed command, without surrounding white space, and
    /// empties the buffer; a command that is not empty is added to the
    /// history and returned.
    pub fn submit(&mut self) -> (r: Option<String>)
        ensures
            final(self).buffer@ == Seq::<char>::empty(),
            final(self).history_cursor is None,
            trimmed(old(self).buffer@).len() == 0 ==> r is None && final(self).history
                == old(self).history,
            trimmed(old(self).buffer@).len() > 0 ==> (r matches Some(c) && c@ == trimmed(
                old(self).buffer@,
            ) && final(self).history@ == old(self).history@.push(c)),
    {
        let command = owned(trim_str(self.buffer.as_str()));
        self.clear();
        if command.as_str().is_empty() {
            return None;
        }
        self.history.push(command.clone());
        Some(command)
    }

    /// Shows the previous history entry: the last one when none is shown,
    /// and the first one stays.
    pub fn history_prev(&mut self)
        requires
            old(self).history@.len() > 0 ==> prev_index(
                old(self).history_cursor,
                old(self).history@.len(),
            ) < old(self).history@.len(),
        ensures
            final(self).history == old(self).history,
            old(self).history@.len() == 0 ==> final(self).buffer == old(self).buffer
                && final(self).history_cursor == old(self).history_cursor,
            old(self).history@.len() > 0 ==> {
                let next = prev_index(old(self).history_cursor, old(self).history@.len());
                &&& final(self).history_cursor == Some(next as usize)
                &&& final(self).buffer == old(self).history@[next]
            },
    {
        if self.history.len() == 0 {
            return;
        }
        let next = match self.history_cursor {
            None => self.history.len() - 1,
            Some(0) => 0,
            Some(i) => i - 1,
        };
        self.history_cursor = Some(next);
        self.buffer = self.history[next].clone();
    }

    /// Shows the next history entry; past the last one, the buffer is
    /// emptied and no entry is shown.
    pub fn history_next(&mut self)
        requires
            old(self).history_cursor matches Some(c) ==> c < usize::MAX,
        ensures
            final(self).history == old(self).history,
            old(self).history_cursor is None ==> final(self).buffer == old(self).buffer
                && final(self).history_cursor is None,
            old(self).history_cursor matches Some(c) ==> if c + 1 >= old(self).history@.len() {
                final(self).history_cursor is None && final(self).buffer@ == Seq::<char>::empty()
            } else {
                final(self).history_cursor == Some((c + 1) as usize) && final(self).buffer == old(
                    self,
                ).history@[c + 1]
            },
    {
        let cursor = match self.history_cursor {
            Some(c) => c,
            None => return,
        };
        if cursor + 1 >= self.history.len() {
            self.history_cursor = None;
            self.buffer = String::new();
        } else {
            let next = cursor + 1;
            self.history_cursor = Some(next);
            self.buffer = self.history[next].clone();
        }
    }

    /// Handles a key press on the command line: Esc cancels, Enter
    /// submits, Backspace deletes, a character is typed, Up and Down walk
    /// the history, and Page Up and Page Down scroll an open output panel.
    pub fn handle_key(&mut self, code: KeyCode, output: &mut CommandOutput) -> (r: CommandKeyAction)
        requires
            code == KeyCode::Up && old(self).history@.len() > 0 ==> prev_index(
                old(self).history_cursor,
                old(self).history@.len(),
            ) < old(self).history@.len(),
            code == KeyCode::Down ==> (old(self).history_cursor matches Some(c) ==> c < usize::MAX),
        ensures
            match code {
                KeyCode::Esc => {
                    &&& final(self).buffer@ == Seq::<char>::empty()
                    &&& final(self).history_cursor is None
                    &&& final(self).history == old(self).history
                    &&& r == CommandKeyAction::Cancel
                    &&& *final(output) == *old(output)
                },
                KeyCode::Enter => {
                    &&& final(self).buffer@ == Seq::<char>::empty()
                    &&& final(self).history_cursor is None
                    &&& *final(output) == *old(output)
                    &&& trimmed(old(self).buffer@).len() == 0 ==> r == CommandKeyAction::NoAction
                        && final(self).history == old(self).history
                    &&& trimmed(old(self).buffer@).len() > 0 ==> (r matches CommandKeyAction::Submit(
                        c,
                    ) && c@ == trimmed(old(self).buffer@) && final(self).history@ == old(
                        self,
                    ).history@.push(c))
                },
                KeyCode::Backspace => {
                    &&& final(self).buffer@ == (if old(self).buffer@.len() == 0 {
                        old(self).buffer@
                    } else {
                        old(self).buffer@.drop_last()
                    })
                    &&& final(self).history_cursor is None
                    &&& final(self).history == old(self).history
                    &&& r == CommandKeyAction::NoAction
                    &&& *final(output) == *old(output)
                },
                KeyCode::Char(ch) => {
                    &&& final(self).buffer@ == old(self).buffer@.push(ch)
                    &&& final(self).history_cursor is None
                    &&& final(self).history == old(self).history
                    &&& r == CommandKeyAction::NoAction
                    &&& *final(output) == *old(output)
                },
                KeyCode::Up => {
                    &&& final(self).history == old(self).history
                    &&& old(self).history@.len() == 0 ==> final(self).buffer == old(self).buffer
                        && final(self).history_cursor == old(self).history_cursor
                    &&& old(self).history@.len() > 0 ==> {
                        let next = prev_index(old(self).history_cursor, old(self).history@.len());
                        &&& final(self).history_cursor == Some(next as usize)
                        &&& final(self).buffer == old(self).history@[next]
                    }
                    &&& r == CommandKeyAction::NoAction
                    &&& *final(output) == *old(output)
                },
                KeyCode::Down => {
                    &&& final(self).history == old(self).history
                    &&& old(self).history_cursor is None ==> final(self).buffer == old(self).buffer
                        && final(self).history_cursor is None
                    &&& old(self).history_cursor matches Some(c) ==> if c + 1 >= old(
                        self,
                    ).history@.len() {
                        final(self).history_cursor is None && final(self).buffer@ == Seq::<
                            char,
                        >::empty()
                    } else {
                        final(self).history_cursor == Some((c + 1) as usize) && final(self).buffer
                            == old(self).history@[c + 1]
                    }
                    &&& r == CommandKeyAction::NoAction
                    &&& *final(output) == *old(output)
                },
                KeyCode::PageUp => {
                    &&& *final(self) == *old(self)
                    &&& r == CommandKeyAction::NoAction
                    &&& final(output).lines == old(output).lines
                    &&& final(output).open == old(output).open
                    &&& final(output).hint == old(output).hint
                    &&& final(output).scroll == (if old(output).open {
                        if old(output).scroll + 5 > usize::MAX {
                            usize::MAX as int
                        } else {
                            old(output).scroll + 5
                        }
                    } else {
                        old(output).scroll as int
                    })
                },
                KeyCode::PageDown => {
                    &&& *final(self) == *old(self)
                    &&& r == CommandKeyAction::NoAction
                    &&& final(output).lines == old(output).lines
                    &&& final(output).open == old(output).open
                    &&& final(output).hint == old(output).hint
                    &&& final(output).scroll == (if old(output).open {
                        if old(output).scroll < 5 {
                            0
                        } else {
                            old(output).scroll - 5
                        }
                    } else {
                        old(output).scroll as int
                    })
                },
                KeyCode::Other => {
                    &&& *final(self) == *old(self)
                    &&& r == CommandKeyAction::NoAction
                    &&& *final(output) == *old(output)
                },
            },
    {
        match code {
            KeyCode::Esc => {
                self.clear();
                CommandKeyAction::Cancel
            },
            KeyCode::Enter => match self.submit() {
                Some(c) => CommandKeyAction::Submit(c),
                None => CommandKeyAction::NoAction,
            },
            KeyCode::Backspace => {
                self.backspace();
                CommandKeyAction::NoAction
            },
            KeyCode::Char(c) => {
                self.push_char(c);
                CommandKeyAction::NoAction
            },
            KeyCode::Up => {
                self.history_prev();
                CommandKeyAction::NoAction
            },
            KeyCode::Down => {
                self.history_next();
                CommandKeyAction::NoAction
            },
            KeyCode::PageUp => {
                if output.open {
                    output.page_up();
                }
                CommandKeyAction::NoAction
            },
            KeyCode::PageDown => {
                if output.open {
                    output.page_down();
                }
                CommandKeyAction::NoAction
            },
            KeyCode::Other => CommandKeyAction::NoAction,
        }
    }
}

/// Adding one line and then keeping the last `k` lines is the same as
/// keeping the last `k` lines before and after adding it.
pub proof fn lemma_keep_last_push<T>(s: Seq<T>, x: T, k: nat)
    requires
        k > 0,
    ensures
        keep_last(keep_last(s, k).push(x), k) == keep_last(s.push(x), k),
{
    assert(keep_last(keep_last(s, k).push(x), k) =~= keep_last(s.push(x), k));
}

/// The lines kept are at most `k`, and they are the last lines of `s`: the
/// output panel never holds more than `OUTPUT_HISTORY_LIMIT` lines, and
/// drops the oldest first.
pub proof fn lemma_keep_last_bound<T>(s: Seq<T>, k: nat)
    ensures
        keep_last(s, k).len() == if s.len() > k { k } else { s.len() },
        keep_last(s, k) == s.subrange(s.len() - keep_last(s, k).len(), s.len() as int),
{
    assert(s.subrange(0, s.len() as int) =~= s);
}

impl CommandOutput {
    /// The panel is open and has something to show.
    pub fn visible(&self) -> (r: bool)
        ensures
            r == (self.open && self.lines@.len() > 0),
    {
        self.open && !self.lines.is_empty()
    }

    /// Adds a line, keeping only the last `OUTPUT_HISTORY_LIMIT` lines, and
    /// scrolls to the bottom.
    pub fn push_line(&mut self, line: String)
        ensures
            final(self).lines@ == keep_last(old(self).lines@.push(line), OUTPUT_HISTORY_LIMIT as nat),
            final(self).scroll == 0,
            final(self).open == old(self).open,
            final(self).hint == old(self).hint,
    {
        self.lines.push(line);
        if self.lines.len() > OUTPUT_HISTORY_LIMIT {
            let trim = self.lines.len() - OUTPUT_HISTORY_LIMIT;
            let kept = self.lines.split_off(trim);
            self.lines = kept;
        }
        self.scroll = 0;
    }

    /// Adds lines one by one, as `push_line` does.
    pub fn push_lines(&mut self, lines: Vec<String>)
        ensures
            lines@.len() == 0 ==> *final(self) == *old(self),
            lines@.len() > 0 ==> final(self).lines@ == keep_last(
                old(self).lines@ + lines@,
                OUTPUT_HISTORY_LIMIT as nat,
            ) && final(self).scroll == 0,
            final(self).open == old(self).open,
            final(self).hint == old(self).hint,
    {
        let mut i: usize = 0;
        while i < lines.len()
            invariant
                i <= lines@.len(),
                i == 0 ==> *self == *old(self),
                i > 0 ==> self.lines@ == keep_last(
                    old(self).lines@ + lines@.subrange(0, i as int),
                    OUTPUT_HISTORY_LIMIT as nat,
                ) && self.scroll == 0,
                self.open == old(self).open,
                self.hint == old(self).hint,
            decreases lines@.len() - i,
        {
            let ghost before = self.lines@;
            self.push_line(lines[i].clone());
            proof {
                let s = old(self).lines@ + lines@.subrange(0, i as int);
                assert(s.push(lines@[i as int]) =~= old(self).lines@ + lines@.subrange(0, i + 1));
                if i > 0 {
                    lemma_keep_last_push(s, lines@[i as int], OUTPUT_HISTORY_LIMIT as nat);
                } else {
                    assert(lines@.subrange(0, 0) =~= Seq::<String>::empty());
                    assert(s =~= old(self).lines@);
                }
            }
            i = i + 1;
        }
        assert(lines@.subrange(0, lines@.len() as int) =~= lines@);
    }

    /// Echoes a command as `> /command`, unless it is `panel` in any case
    /// of its letters.
    pub fn push_command_echo(&mut self, command: &str)
        ensures
            crate::text::ascii_case_insensitive_eq(command@, "panel"@) ==> *final(self) == *old(
                self,
            ),
            !crate::text::ascii_case_insensitive_eq(command@, "panel"@) ==> final(self).lines@.len()
                > 0 && final(self).lines@.last()@ == "> /"@ + command@ && final(self).lines@
                == keep_last(
                old(self).lines@.push(final(self).lines@.last()),
                OUTPUT_HISTORY_LIMIT as nat,
            ) && final(self).scroll == 0 && final(self).open == old(self).open && final(self).hint
                == old(self).hint,
    {
        if eq_ignore_ascii_case(command, "panel") {
            return;
        }
        let mut line = owned("> /");
        append_str(&mut line, command);
        let ghost l = line;
        self.push_line(line);
        proof {
            let s = old(self).lines@.push(l);
            assert(s.last() == l);
            if s.len() > OUTPUT_HISTORY_LIMIT {
                assert(keep_last(s, OUTPUT_HISTORY_LIMIT as nat).last() == l);
            }
        }
    }

    /// Empties and closes the panel.
    pub fn clear(&mut self)
        ensures
            final(self).lines@.len() == 0,
            final(self).scroll == 0,
            !final(self).open,
            final(self).hint is None,
    {
        self.lines.clear();
        self.scroll = 0;
        self.open = false;
        self.hint = None;
    }

    /// Folds or unfolds the panel and says which; an empty panel stays as
    /// it is.
    pub fn toggle(&mut self) -> (r: Option<&'static str>)
        ensures
            old(self).lines@.len() == 0 ==> *final(self) == *old(self),
            old(self).lines@.len() == 0 ==> (r matches Some(m) && m@ == "output panel is empty"@),
            old(self).lines@.len() > 0 ==> {
                &&& final(self).open == !old(self).open
                &&& final(self).hint is None
                &&& final(self).lines == old(self).lines
                &&& final(self).scroll == old(self).scroll
                &&& (r matches Some(m) && m@ == (if final(self).open {
                    "output panel shown"@
                } else {
                    "output panel hidden"@
                }))
            },
    {
        if self.lines.is_empty() {
            return Some("output panel is empty");
        }
        self.open = !self.open;
        self.hint = None;
        Some(
            if self.open {
                "output panel shown"
            } else {
                "output panel hidden"
            },
        )
    }

    /// Scrolls an open panel five lines back.
    pub fn page_up(&mut self)
        ensures
            final(self).lines == old(self).lines,
            final(self).open == old(self).open,
            final(self).hint == old(self).hint,
            final(self).scroll == (if old(self).open {
                if old(self).scroll + 5 > usize::MAX {
                    usize::MAX as int
                } else {
                    old(self).scroll + 5
                }
            } else {
                old(self).scroll as int
            }),
    {
        if self.open {
            self.scroll = self.scroll.saturating_add(5);
        }
    }

    /// Scrolls an open panel five lines forward.
    pub fn page_down(&mut self)
        ensures
            final(self).lines == old(self).lines,
            final(self).open == old(self).open,
            final(self).hint == old(self).hint,
            final(self).scroll == (if old(self).open {
                if old(self).scroll < 5 {
                    0
                } else {
                    old(self).scroll - 5
                }
            } else {
                old(self).scroll as int
            }),
    {
        if self.open {
            self.scroll = self.scroll.saturating_sub(5);
        }
    }

    /// Keeps the scroll within what a panel of `visible_height` rows can
    /// show.
    pub fn clamp_scroll(&mut self, visible_height: u16)
        ensures
            final(self).lines == old(self).lines,
            final(self).open == old(self).open,
            final(self).hint == old(self).hint,
            final(self).scroll == (if visible_height > 0 {
                let max_scroll = if old(self).lines@.len() < visible_height {
                    0
                } else {
                    old(self).lines@.len() - visible_height
                };
                if old(self).scroll < max_scroll {
                    old(self).scroll as int
                } else {
                    max_scroll
                }
            } else {
                0
            }),
    {
        if visible_height > 0 {
            let max_scroll = self.lines.len().saturating_sub(visible_height as usize);
            self.scroll = if self.scroll < max_scroll {
                self.scroll
            } else {
                max_scroll
            };
        } else {
            self.scroll = 0;
        }
    }

    /// While the panel is closed, shows the line at `start` (if any) as a
    /// hint on the status line.
    pub fn set_closed_hint_from(&mut self, start: usize)
        ensures
            final(self).lines == old(self).lines,
            final(self).open == old(self).open,
            final(self).scroll == old(self).scroll,
            old(self).open ==> final(self).hint == old(self).hint,
            !old(self).open ==> final(self).hint == (if start < old(self).lines@.len() {
                Some(old(self).lines@[start as int])
            } else {
                None
            }),
    {
        if !self.open {
            self.hint = if start < self.lines.len() {
                Some(self.lines[start].clone())
            } else {
                None
            };
        }
    }
}

/// The lines that `/help` prints.
pub fn command_help_lines() -> (r: Vec<String>)
    ensures
        r@.len() == 10,
        r@[0]@ == "commands:"@,
        r@[1]@ == "/help - show this list"@,
        r@[2]@ == "/clear - clear the output panel"@,
        r@[3]@ == "/panel or ? - fold or unfold the output panel"@,
        r@[4]@ == "/status - show puzzle and input state"@,
        r@[5]@ == "/moves - show the last 20 moves"@,
        r@[6]@ == "/save - save the current session"@,
        r@[7]@ == "/scramble - scramble the puzzle"@,
        r@[8]@ == "/reset - reset the puzzle"@,
        r@[9]@ == "/rev start|stop|unwind|comm - manage reversion blocks"@,
{
    vec![
        owned("commands:"),
        owned("/help - show this list"),
        owned("/clear - clear the output panel"),
        owned("/panel or ? - fold or unfold the output panel"),
        owned("/status - show puzzle and input state"),
        owned("/moves - show the last 20 moves"),
        owned("/save - save the current session"),
        owned("/scramble - scramble the puzzle"),
        owned("/reset - reset the puzzle"),
        owned("/rev start|stop|unwind|comm - manage reversion blocks"),
    ]
}

} // verus!
