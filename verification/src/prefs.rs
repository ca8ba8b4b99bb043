//! Preferences: the axes with their colours and keys, the global keys, and
//! the rules that keep the keys of a preference file apart.

use vstd::prelude::*;
use std::collections::HashSet;
use crate::text::{append_str, char_string, debug_quote, debug_quoted, decimal, owned, str_equal, usize_to_decimal};

verus! {

broadcast use vstd::std_specs::hash::group_hash_axioms;

/// The key code that the escape key sends.
pub const ESCAPE_CODE: char = '\x1b';

/// The key code that the backspace key sends.
pub const BACKSPACE_CODE: char = '\x08';

/// The key code that marks a key binding as switched off.
pub const DISABLED_KEY_CODE: char = '\0';

/// A terminal colour: an index into the 256-colour ANSI palette.
#[derive(Clone, Copy, Debug, PartialEq, Eq, Structural)]
pub enum Color {
    AnsiValue(u8),
}

/// The two keys bound to one side of an axis.
#[derive(Clone, Copy, Debug, PartialEq, Eq, Structural)]
pub struct Keys {
    pub select: char,
    pub side: char,
}

/// One side of an axis: its one-letter name, its colour and its keys.
#[derive(Clone, Copy, Debug, PartialEq, Eq, Structural)]
pub struct Side {
    pub name: char,
    pub color: Color,
    pub keys: Keys,
}

/// An axis of the puzzle: its positive and negative sides and the key that
/// picks the axis as a whole.
#[derive(Clone, Copy, Debug, PartialEq, Eq, Structural)]
pub struct Axis {
    pub pos: Side,
    pub neg: Side,
    pub axis_key: char,
}

/// The colours of pieces that are not stickers of a side.
#[derive(Clone, Copy, Debug, PartialEq, Eq, Structural)]
pub struct GlobalColors {
    pub piece: Color,
    pub filtered: Color,
    pub alert: Color,
    pub clicked: Color,
}

/// The keys that do not belong to an axis.
#[derive(Debug, Clone)]
pub struct GlobalKeys {
    pub layers: Vec<char>,
    pub rotate: char,
    pub scramble: char,
    pub reset: char,
    pub keybind_mode: char,
    pub axis_mode: char,
    pub undo: char,
    pub redo: char,
    pub next_filter: char,
    pub prev_filter: char,
    pub live_filter_mode: char,
    pub reset_mode: char,
    pub save: char,
    pub rev_start: char,
    pub rev_stop: char,
    pub rev_unwind: char,
    pub rev_commutator: char,
}

/// A whole preference file.
#[derive(Debug, Clone)]
pub struct Prefs {
    pub axes: Vec<Axis>,
    pub global_keys: GlobalKeys,
    pub global_colors: GlobalColors,
    pub damage_repeat: u8,
    pub alert_frames: u8,
}

/// Whether `ch` marks a switched-off key.
pub open spec fn key_disabled(ch: char) -> bool {
    ch == DISABLED_KEY_CODE
}

/// Whether `ch` marks a switched-off key.
pub fn is_disabled_key(ch: char) -> (r: bool)
    ensures
        r == key_disabled(ch),
{
    ch == DISABLED_KEY_CODE
}

/// The key that the text `s` of a preference file names, if it names one:
/// the aliases of escape, backspace and of a switched-off key, a symbol for
/// each of those three, or any other single character, which stands for
/// itself.
pub open spec fn key_named(s: Seq<char>) -> Option<char> {
    if s == "Esc"@ || s == "Escape"@ || s == "\\e"@ || s == "\\x1b"@ || s == "\\u001b"@ {
        Some(ESCAPE_CODE)
    } else if s == "Backspace"@ || s == "\\b"@ || s == "\\x08"@ || s == "\\u0008"@ {
        Some(BACKSPACE_CODE)
    } else if s == "None"@ || s == "Disabled"@ || s == "\\0"@ || s == "\\x00"@ || s == "\\u0000"@ {
        Some(DISABLED_KEY_CODE)
    } else if s.len() == 1 {
        if s[0] == '⎋' {
            Some(ESCAPE_CODE)
        } else if s[0] == '⌫' {
            Some(BACKSPACE_CODE)
        } else if s[0] == '∅' {
            Some(DISABLED_KEY_CODE)
        } else {
            Some(s[0])
        }
    } else {
        None
    }
}

/// The message for text that names no key.
pub open spec fn bad_key_message(s: Seq<char>) -> Seq<char> {
    "key must be one character or a supported key escape, got "@ + debug_quoted(s)
}

/// Reads a key of a preference file: `Ok` with the key that `st` names,
/// or `Err` with a message that quotes `st` when it names none.
pub fn parse_key(st: &str) -> (r: Result<char, String>)
    ensures
        match key_named(st@) {
            Some(ch) => r == Ok::<char, String>(ch),
            None => r matches Err(msg) && msg@ == bad_key_message(st@),
        },
{
    if str_equal(st, "Esc") || str_equal(st, "Escape") || str_equal(st, "\\e") || str_equal(
        st,
        "\\x1b",
    ) || str_equal(st, "\\u001b") {
        return Ok(ESCAPE_CODE);
    }
    if str_equal(st, "Backspace") || str_equal(st, "\\b") || str_equal(st, "\\x08") || str_equal(
        st,
        "\\u0008",
    ) {
        return Ok(BACKSPACE_CODE);
    }
    if str_equal(st, "None") || str_equal(st, "Disabled") || str_equal(st, "\\0") || str_equal(
        st,
        "\\x00",
    ) || str_equal(st, "\\u0000") {
        return Ok(DISABLED_KEY_CODE);
    }
    if st.unicode_len() == 1 {
        let ch = st.get_char(0);
        if ch == '⎋' {
            Ok(ESCAPE_CODE)
        } else if ch == '⌫' {
            Ok(BACKSPACE_CODE)
        } else if ch == '∅' {
            Ok(DISABLED_KEY_CODE)
        } else {
            Ok(ch)
        }
    } else {
        let mut msg = owned("key must be one character or a supported key escape, got ");
        let quoted = debug_quote(st);
        append_str(&mut msg, quoted.as_str());
        Err(msg)
    }
}

/// The value of the hexadecimal digit `c` (`0`-`9`, `a`-`f`, `A`-`F`), or
/// `-1` when `c` is no such digit.
pub open spec fn hex_digit_value(c: char) -> int {
    let x = c as int;
    if 0x30 <= x <= 0x39 {
        x - 0x30
    } else if 0x61 <= x <= 0x66 {
        x - 0x61 + 10
    } else if 0x41 <= x <= 0x46 {
        x - 0x41 + 10
    } else {
        -1
    }
}

/// The number that the hexadecimal digits `s` write, most significant
/// first.
pub open spec fn hex_value(s: Seq<char>) -> int
    decreases s.len(),
{
    if s.len() == 0 {
        0
    } else {
        hex_value(s.drop_last()) * 16 + hex_digit_value(s.last())
    }
}

/// The digits of `s`: `s` without a leading `+`.
pub open spec fn hex_digits_of(s: Seq<char>) -> Seq<char> {
    if s.len() > 0 && s[0] == '+' {
        s.drop_first()
    } else {
        s
    }
}

/// Whether `s` writes a `u32` in hexadecimal: an optional `+`, then one or
/// more hexadecimal digits, whose value is at most `u32::MAX`.
pub open spec fn is_u32_hex(s: Seq<char>) -> bool {
    let d = hex_digits_of(s);
    &&& d.len() > 0
    &&& forall|i: int| 0 <= i < d.len() ==> hex_digit_value(#[trigger] d[i]) >= 0
    &&& hex_value(d) <= u32::MAX
}

/// The index of the 256-colour ANSI palette that `rgb2ansi256` picks for
/// the colour with channels `r`, `g`, `b`.
pub uninterp spec fn ansi256_of(r: u8, g: u8, b: u8) -> u8;

/// The palette colour for the 24-bit RGB value `v` (`0xRRGGBB`).
pub open spec fn color_of_rgb(v: int) -> Color {
    Color::AnsiValue(ansi256_of((v / 0x10000 % 0x100) as u8, (v / 0x100 % 0x100) as u8, (v % 0x100) as u8))
}

/// Declares `std::num::ParseIntError` so that results can carry it.
#[verifier::external_type_specification]
#[verifier::external_body]
pub struct ExParseIntError(std::num::ParseIntError);

/// Why a text is no hexadecimal `u32`: the kinds of
/// `std::num::IntErrorKind` that parsing an unsigned number can give, and
/// `Other` for any kind that std may add.
#[derive(Clone, Copy, Debug, PartialEq, Eq, Structural)]
pub enum HexErrorKind {
    Empty,
    InvalidDigit,
    PosOverflow,
    Other,
}

/// A colour that could not be read: the error of `u32::from_str_radix`,
/// and its kind.
#[derive(Debug, PartialEq, Eq)]
pub struct HexError {
    pub error: std::num::ParseIntError,
    pub kind: HexErrorKind,
}

/// The error kinds that the documentation of `std::num::IntErrorKind`
/// gives for a text `s` that is no hexadecimal `u32`: `Empty` for an empty
/// text; `InvalidDigit` for a lone `+`, and for a text with a character
/// that is no digit when its digits are too few to overflow; `PosOverflow`
/// for digits only whose value is too large; and one of the last two for a
/// longer text with a character that is no digit.
pub open spec fn hex_error_kind_fits(s: Seq<char>, k: HexErrorKind) -> bool {
    let d = hex_digits_of(s);
    if s.len() == 0 {
        k == HexErrorKind::Empty
    } else if d.len() == 0 {
        k == HexErrorKind::InvalidDigit
    } else if forall|i: int| 0 <= i < d.len() ==> hex_digit_value(#[trigger] d[i]) >= 0 {
        k == HexErrorKind::PosOverflow
    } else if d.len() <= 8 {
        k == HexErrorKind::InvalidDigit
    } else {
        k == HexErrorKind::InvalidDigit || k == HexErrorKind::PosOverflow
    }
}

/// `u32::from_str_radix(st, 16)`, with the kind of its error
/// (`ParseIntError::kind`). Its documentation: the text is an optional `+`
/// followed by digits only (here `0`-`9`, `a`-`f`, `A`-`F`); anything else,
/// an empty text, or a value above `u32::MAX` is an error, of a kind as
/// `hex_error_kind_fits` says. Which of two kinds comes out for a long
/// text that both has a character that is no digit and could overflow is
/// not stated there, nor here.
#[verifier::external_body]
fn u32_from_hex(st: &str) -> (r: Result<u32, (std::num::ParseIntError, HexErrorKind)>)
    ensures
        r is Ok <==> is_u32_hex(st@),
        r matches Ok(v) ==> v == hex_value(hex_digits_of(st@)),
        r matches Err(e) ==> hex_error_kind_fits(st@, e.1),
{
    match u32::from_str_radix(st, 16) {
        Ok(v) => Ok(v),
        Err(e) => {
            let kind = match e.kind() {
                std::num::IntErrorKind::Empty => HexErrorKind::Empty,
                std::num::IntErrorKind::InvalidDigit => HexErrorKind::InvalidDigit,
                std::num::IntErrorKind::PosOverflow => HexErrorKind::PosOverflow,
                _ => HexErrorKind::Other,
            };
            Err((e, kind))
        },
    }
}

/// `rgb2ansi256::rgb_to_ansi256`: the palette index nearest to a colour,
/// named by `ansi256_of`.
#[verifier::external_body]
fn rgb_to_ansi(r: u8, g: u8, b: u8) -> (c: u8)
    ensures
        c == ansi256_of(r, g, b),
{
    rgb2ansi256::rgb_to_ansi256(r, g, b)
}

/// The red, green and blue channels of the 24-bit value in the low bits of
/// `value`.
pub fn rgb_channels(value: u32) -> (r: (u8, u8, u8))
    ensures
        r.0 == value / 0x10000 % 0x100,
        r.1 == value / 0x100 % 0x100,
        r.2 == value % 0x100,
{
    let red = ((value >> 16u32) & 0xffu32) as u8;
    let green = ((value >> 8u32) & 0xffu32) as u8;
    let blue = (value & 0xffu32) as u8;
    assert((value >> 16u32) & 0xffu32 == value / 0x10000 % 0x100) by (bit_vector);
    assert((value >> 8u32) & 0xffu32 == value / 0x100 % 0x100) by (bit_vector);
    assert(value & 0xffu32 == value % 0x100) by (bit_vector);
    (red, green, blue)
}

/// Reads a colour written as hexadecimal `RRGGBB` and gives the nearest
/// palette colour; the error of `u32::from_str_radix`, with its kind, when
/// `st` is no hexadecimal `u32`.
pub fn hex(st: &str) -> (r: Result<Color, HexError>)
    ensures
        r is Ok <==> is_u32_hex(st@),
        r matches Ok(c) ==> c == color_of_rgb(hex_value(hex_digits_of(st@))),
        r matches Err(e) ==> hex_error_kind_fits(st@, e.kind),
{
    match u32_from_hex(st) {
        Ok(value) => {
            let (red, green, blue) = rgb_channels(value);
            Ok(Color::AnsiValue(rgb_to_ansi(red, green, blue)))
        },
        Err((error, kind)) => Err(HexError { error, kind }),
    }
}

/// The message for a key that repeats within one field of the axes.
pub open spec fn duplicate_key_message(field: Seq<char>, ch: char, axis: int, dir: Seq<char>) -> Seq<char> {
    "duplicate "@ + field + " key '"@ + seq![ch] + "' in axis "@ + decimal(axis as nat) + " "@ + dir
}

/// The message for an axis key that repeats.
pub open spec fn duplicate_axis_key_message(ch: char, axis: int) -> Seq<char> {
    "duplicate axis_key '"@ + seq![ch] + "' in axis "@ + decimal(axis as nat)
}

/// The message for a global key that an axis uses too; `place` says which
/// global key it is.
pub open spec fn conflict_message(ch: char, place: Seq<char>) -> Seq<char> {
    "key '"@ + seq![ch] + "' in "@ + place + " conflicts with an axis key"@
}

/// How a layer key is named in a message.
pub open spec fn layer_place(i: int) -> Seq<char> {
    "layer key["@ + decimal(i as nat) + "]"@
}

/// The name of direction `k`'s side in a message.
pub open spec fn dir_name(k: int) -> Seq<char> {
    if k % 2 == 0 {
        "pos"@
    } else {
        "neg"@
    }
}

/// The names of the global keys other than the layer keys, in the order
/// they are checked.
pub open spec fn global_key_labels() -> Seq<Seq<char>> {
    seq![
        "global rotate"@,
        "global scramble"@,
        "global reset"@,
        "global keybind_mode"@,
        "global axis_mode"@,
        "global undo"@,
        "global redo"@,
        "global next_filter"@,
        "global prev_filter"@,
        "global live_filter_mode"@,
        "global reset_mode"@,
        "global save"@,
        "global rev_start"@,
        "global rev_stop"@,
        "global rev_unwind"@,
        "global rev_commutator"@,
    ]
}

impl GlobalKeys {
    /// The global keys other than the layer keys, in the order of
    /// `global_key_labels`.
    pub open spec fn named_keys(self) -> Seq<char> {
        seq![
            self.rotate,
            self.scramble,
            self.reset,
            self.keybind_mode,
            self.axis_mode,
            self.undo,
            self.redo,
            self.next_filter,
            self.prev_filter,
            self.live_filter_mode,
            self.reset_mode,
            self.save,
            self.rev_start,
            self.rev_stop,
            self.rev_unwind,
            self.rev_commutator,
        ]
    }
}

impl Prefs {
    /// The number of directions: two per axis.
    pub open spec fn n_dirs(self) -> int {
        2 * (self.axes@.len() as int)
    }

    /// The keys of direction `k`: direction `2 i` is the positive side of
    /// axis `i`, direction `2 i + 1` its negative side.
    pub open spec fn dir_keys(self, k: int) -> Keys {
        if k % 2 == 0 {
            self.axes@[k / 2].pos.keys
        } else {
            self.axes@[k / 2].neg.keys
        }
    }

    /// Whether the select key of direction `k` is live and bound to a
    /// direction before it.
    pub open spec fn select_repeats(self, k: int) -> bool {
        live_before(self.select_key_at(), self.dir_keys(k).select, k)
    }

    /// Whether the side key of direction `k` is live and bound to a
    /// direction before it.
    pub open spec fn side_repeats(self, k: int) -> bool {
        live_before(self.side_key_at(), self.dir_keys(k).side, k)
    }

    /// Whether no select key and no side key of the directions before `k`
    /// repeats.
    pub open spec fn dirs_distinct_before(self, k: int) -> bool {
        forall|j: int| 0 <= j < k ==> !#[trigger] self.select_repeats(j) && !self.side_repeats(j)
    }

    /// Whether the axis key of axis `i` is live and bound to an axis
    /// before it.
    pub open spec fn axis_key_repeats(self, i: int) -> bool {
        live_before(self.axis_key_at(), self.axes@[i].axis_key, i)
    }

    /// Whether no axis key of the axes before `i` repeats.
    pub open spec fn axis_keys_distinct_before(self, i: int) -> bool {
        forall|j: int| 0 <= j < i ==> !#[trigger] self.axis_key_repeats(j)
    }

    /// Whether `ch` is a live key of some axis: a select key, a side key or
    /// an axis key.
    pub open spec fn is_axis_key(self, ch: char) -> bool {
        ||| live_before(self.select_key_at(), ch, self.n_dirs())
        ||| live_before(self.side_key_at(), ch, self.n_dirs())
        ||| live_before(self.axis_key_at(), ch, self.axes@.len() as int)
    }

    /// Whether no layer key before `i` is a key of an axis.
    pub open spec fn layers_free_before(self, i: int) -> bool {
        forall|j: int| 0 <= j < i ==> !self.is_axis_key(#[trigger] self.global_keys.layers@[j])
    }

    /// Whether no named global key before `i` is a key of an axis.
    pub open spec fn named_free_before(self, i: int) -> bool {
        forall|j: int| 0 <= j < i ==> !self.is_axis_key(#[trigger] self.global_keys.named_keys()[j])
    }

    /// Whether the keys of the preferences keep apart: no live select key,
    /// side key or axis key repeats within its field, and no global key is
    /// a key of an axis.
    pub open spec fn keys_distinct(self) -> bool {
        &&& self.dirs_distinct_before(self.n_dirs())
        &&& self.axis_keys_distinct_before(self.axes@.len() as int)
        &&& self.layers_free_before(self.global_keys.layers@.len() as int)
        &&& self.named_free_before(16)
    }

    /// Whether `msg` reports the first clash of keys, in the order that
    /// `validate` checks them: per direction its select key, then its side
    /// key; then the axis keys; then the layer keys; then the named global
    /// keys.
    pub open spec fn reports_first_clash(self, msg: Seq<char>) -> bool {
        let n = self.n_dirs();
        let na = self.axes@.len() as int;
        let nl = self.global_keys.layers@.len() as int;
        ||| exists|k: int|
            0 <= k < n && self.dirs_distinct_before(k) && #[trigger] self.select_repeats(k)
                && msg == duplicate_key_message("select"@, self.dir_keys(k).select, k / 2, dir_name(k))
        ||| exists|k: int|
            0 <= k < n && self.dirs_distinct_before(k) && !self.select_repeats(k)
                && #[trigger] self.side_repeats(k) && msg == duplicate_key_message(
                "side"@,
                self.dir_keys(k).side,
                k / 2,
                dir_name(k),
            )
        ||| self.dirs_distinct_before(n) && exists|i: int|
            0 <= i < na && self.axis_keys_distinct_before(i) && #[trigger] self.axis_key_repeats(i)
                && msg == duplicate_axis_key_message(self.axes@[i].axis_key, i)
        ||| self.dirs_distinct_before(n) && self.axis_keys_distinct_before(na) && exists|i: int|
            0 <= i < nl && self.layers_free_before(i) && self.is_axis_key(
                #[trigger] self.global_keys.layers@[i],
            ) && msg == conflict_message(self.global_keys.layers@[i], layer_place(i))
        ||| self.dirs_distinct_before(n) && self.axis_keys_distinct_before(na)
            && self.layers_free_before(nl) && exists|i: int|
            0 <= i < 16 && self.named_free_before(i) && self.is_axis_key(
                #[trigger] self.global_keys.named_keys()[i],
            ) && msg == conflict_message(self.global_keys.named_keys()[i], global_key_labels()[i])
    }

    /// The select keys of the positive sides, axis by axis.
    pub fn pos_keys(&self) -> (r: Vec<char>)
        ensures
            r@.len() == self.axes@.len(),
            forall|i: int| 0 <= i < r@.len() ==> #[trigger] r@[i] == self.axes@[i].pos.keys.select,
    {
        let mut keys: Vec<char> = Vec::new();
        let mut i: usize = 0;
        while i < self.axes.len()
            invariant
                i <= self.axes@.len(),
                keys@.len() == i,
                forall|j: int| 0 <= j < i ==> #[trigger] keys@[j] == self.axes@[j].pos.keys.select,
            decreases self.axes@.len() - i,
        {
            keys.push(self.axes[i].pos.keys.select);
            i = i + 1;
        }
        keys
    }

    /// The number of axes, as a `u16` (cut to its low 16 bits).
    pub fn max_dim(&self) -> (r: u16)
        ensures
            r == self.axes@.len() as u16,
    {
        self.axes.len() as u16
    }

    /// The most layers a turn can take: two per layer key, and one more;
    /// as an `i16` (cut to its low 16 bits).
    pub fn max_layers(&self) -> (r: i16)
        requires
            self.global_keys.layers@.len() * 2 + 1 <= usize::MAX,
        ensures
            r == (self.global_keys.layers@.len() * 2 + 1) as i16,
    {
        (self.global_keys.layers.len() * 2 + 1) as i16
    }
}

/// The direction of the positive (`pos`) or negative side of axis `axis`.
pub open spec fn dir_index(axis: int, pos: bool) -> int {
    if pos {
        2 * axis
    } else {
        2 * axis + 1
    }
}

/// The text of `duplicate_key_message`.
fn duplicate_key_text(field: &str, ch: char, axis: usize, dir: &str) -> (r: String)
    ensures
        r@ == duplicate_key_message(field@, ch, axis as int, dir@),
{
    let mut msg = owned("duplicate ");
    append_str(&mut msg, field);
    append_str(&mut msg, " key '");
    let c = char_string(ch);
    append_str(&mut msg, c.as_str());
    append_str(&mut msg, "' in axis ");
    let a = usize_to_decimal(axis);
    append_str(&mut msg, a.as_str());
    append_str(&mut msg, " ");
    append_str(&mut msg, dir);
    msg
}

/// The text of `duplicate_axis_key_message`.
fn duplicate_axis_key_text(ch: char, axis: usize) -> (r: String)
    ensures
        r@ == duplicate_axis_key_message(ch, axis as int),
{
    let mut msg = owned("duplicate axis_key '");
    let c = char_string(ch);
    append_str(&mut msg, c.as_str());
    append_str(&mut msg, "' in axis ");
    let a = usize_to_decimal(axis);
    append_str(&mut msg, a.as_str());
    msg
}

/// The text of `conflict_message`.
fn conflict_text(ch: char, place: &str) -> (r: String)
    ensures
        r@ == conflict_message(ch, place@),
{
    let mut msg = owned("key '");
    let c = char_string(ch);
    append_str(&mut msg, c.as_str());
    append_str(&mut msg, "' in ");
    append_str(&mut msg, place);
    append_str(&mut msg, " conflicts with an axis key");
    msg
}

/// The text of `layer_place`.
fn layer_place_text(i: usize) -> (r: String)
    ensures
        r@ == layer_place(i as int),
{
    let mut place = owned("layer key[");
    let d = usize_to_decimal(i);
    append_str(&mut place, d.as_str());
    append_str(&mut place, "]");
    place
}

impl Prefs {
    /// The select key of each direction.
    pub open spec fn select_key_at(self) -> spec_fn(int) -> char {
        |j: int| self.dir_keys(j).select
    }

    /// The side key of each direction.
    pub open spec fn side_key_at(self) -> spec_fn(int) -> char {
        |j: int| self.dir_keys(j).side
    }

    /// The axis key of each axis.
    pub open spec fn axis_key_at(self) -> spec_fn(int) -> char {
        |j: int| self.axes@[j].axis_key
    }

    /// Checks the select key and then the side key of one side of axis
    /// `axis` (the positive one when `pos`) against the keys of the sides
    /// before it, and records them.
    fn record_side_keys(
        &self,
        axis: usize,
        pos: bool,
        selects: &mut HashSet<u32, std::collections::hash_map::RandomState>,
        sides: &mut HashSet<u32, std::collections::hash_map::RandomState>,
    ) -> (r: Result<(), String>)
        requires
            axis < self.axes@.len(),
            ({
                let k = dir_index(axis as int, pos);
                &&& self.dirs_distinct_before(k)
                &&& forall|ch: char| old(selects)@.contains(ch as u32) <==> #[trigger] live_before(self.select_key_at(), ch, k)
                &&& forall|ch: char| old(sides)@.contains(ch as u32) <==> #[trigger] live_before(self.side_key_at(), ch, k)
            }),
        ensures
            ({
                let k = dir_index(axis as int, pos);
                match r {
                    Ok(()) => {
                        &&& self.dirs_distinct_before(k + 1)
                        &&& forall|ch: char| final(selects)@.contains(ch as u32) <==> #[trigger] live_before(self.select_key_at(), ch, k + 1)
                        &&& forall|ch: char| final(sides)@.contains(ch as u32) <==> #[trigger] live_before(self.side_key_at(), ch, k + 1)
                    },
                    Err(msg) => self.reports_first_clash(msg@) && !self.keys_distinct(),
                }
            }),
    {
        let ghost k = dir_index(axis as int, pos);
        let keys = if pos {
            self.axes[axis].pos.keys
        } else {
            self.axes[axis].neg.keys
        };
        let dir = if pos {
            "pos"
        } else {
            "neg"
        };
        assert(self.dir_keys(k) == keys);
        assert(k / 2 == axis);
        assert(dir@ == dir_name(k));
        proof {
            assert(vstd::std_specs::hash::obeys_key_model::<u32>());
            assert(vstd::std_specs::hash::builds_valid_hashers::<std::collections::hash_map::RandomState>());
            assert(self.select_key_at()(k) == keys.select);
            assert(self.side_key_at()(k) == keys.side);
        }
        if !is_disabled_key(keys.select) && !selects.insert(keys.select as u32) {
            assert(live_before(self.select_key_at(), keys.select, k));
            assert(self.select_repeats(k));
            assert(!self.dirs_distinct_before(self.n_dirs()));
            return Err(duplicate_key_text("select", keys.select, axis, dir));
        }
        assert(!self.select_repeats(k)) by {
            if self.select_repeats(k) {
                assert(live_before(self.select_key_at(), keys.select, k));
            }
        }
        proof {
            lemma_record_live(self.select_key_at(), k, old(selects)@, selects@);
        }
        if !is_disabled_key(keys.side) && !sides.insert(keys.side as u32) {
            assert(live_before(self.side_key_at(), keys.side, k));
            assert(self.side_repeats(k));
            assert(!self.dirs_distinct_before(self.n_dirs()));
            return Err(duplicate_key_text("side", keys.side, axis, dir));
        }
        assert(!self.side_repeats(k)) by {
            if self.side_repeats(k) {
                assert(live_before(self.side_key_at(), keys.side, k));
            }
        }
        proof {
            lemma_record_live(self.side_key_at(), k, old(sides)@, sides@);
        }
        Ok(())
    }
}

/// Whether `ch` is a live key among `keys(0), ..., keys(k - 1)`.
pub open spec fn live_before(keys: spec_fn(int) -> char, ch: char, k: int) -> bool {
    !key_disabled(ch) && exists|j: int| 0 <= j < k && #[trigger] keys(j) == ch
}

/// Two characters have the same code exactly when they are the same.
proof fn lemma_char_code(a: char, b: char)
    ensures
        (a as u32 == b as u32) <==> a == b,
{
    assert(0 <= a as int <= 0x10ffff);
    assert(0 <= b as int <= 0x10ffff);
    assert((a as u32) as int == a as int);
    assert((b as u32) as int == b as int);
}

/// A set of the codes of the live keys before `k`, with the code of
/// `keys(k)` added when it is live, holds the codes of the live keys
/// before `k + 1`.
proof fn lemma_record_live(keys: spec_fn(int) -> char, k: int, before: Set<u32>, after: Set<u32>)
    requires
        0 <= k,
        forall|ch: char|
            #![trigger live_before(keys, ch, k)]
            before.contains(ch as u32) <==> live_before(keys, ch, k),
        after == (if key_disabled(keys(k)) {
            before
        } else {
            before.insert(keys(k) as u32)
        }),
    ensures
        forall|ch: char|
            #![trigger live_before(keys, ch, k + 1)]
            after.contains(ch as u32) <==> live_before(keys, ch, k + 1),
{
    assert forall|ch: char| after.contains(ch as u32) <==> #[trigger] live_before(keys, ch, k + 1) by {
        if live_before(keys, ch, k + 1) {
            let j = choose|j: int| 0 <= j < k + 1 && #[trigger] keys(j) == ch;
            if j < k {
                assert(live_before(keys, ch, k));
            }
        }
        if after.contains(ch as u32) {
            if before.contains(ch as u32) {
                assert(live_before(keys, ch, k));
                let j = choose|j: int| 0 <= j < k && #[trigger] keys(j) == ch;
                assert(keys(j) == ch);
            } else {
                assert(!key_disabled(keys(k)));
                assert(ch as u32 == keys(k) as u32);
                lemma_char_code(ch, keys(k));
            }
        }
    }
}

/// Whether one of the three key sets holds the code of `ch`.
fn held_by_any(selects: &HashSet<u32>, sides: &HashSet<u32>, axis_keys: &HashSet<u32>, ch: char) -> (r: bool)
    ensures
        r == (selects@.contains(ch as u32) || sides@.contains(ch as u32) || axis_keys@.contains(
            ch as u32,
        )),
{
    proof {
        assert(vstd::std_specs::hash::obeys_key_model::<u32>());
        assert(vstd::std_specs::hash::builds_valid_hashers::<std::collections::hash_map::RandomState>());
    }
    let code = ch as u32;
    selects.contains(&code) || sides.contains(&code) || axis_keys.contains(&code)
}

impl Prefs {
    /// Checks that the keys keep apart (see `keys_distinct`): `Ok` when
    /// they do, and otherwise `Err` with a message on the first clash, in
    /// the order of `reports_first_clash`. A switched-off key clashes with
    /// nothing.
    pub fn validate(&self) -> (r: Result<(), String>)
        ensures
            r is Ok <==> self.keys_distinct(),
            r matches Err(msg) ==> self.reports_first_clash(msg@),
    {
        let mut selects: HashSet<u32> = HashSet::new();
        let mut sides: HashSet<u32> = HashSet::new();
        let n = self.axes.len();
        let mut i: usize = 0;
        while i < n
            invariant
                n == self.axes@.len(),
                i <= n,
                self.dirs_distinct_before(2 * i),
                forall|ch: char| selects@.contains(ch as u32) <==> #[trigger] live_before(self.select_key_at(), ch, 2 * i),
                forall|ch: char| sides@.contains(ch as u32) <==> #[trigger] live_before(self.side_key_at(), ch, 2 * i),
            decreases n - i,
        {
            match self.record_side_keys(i, true, &mut selects, &mut sides) {
                Ok(()) => {},
                Err(msg) => {
                    return Err(msg);
                },
            }
            match self.record_side_keys(i, false, &mut selects, &mut sides) {
                Ok(()) => {},
                Err(msg) => {
                    return Err(msg);
                },
            }
            i = i + 1;
        }
        let ghost nd = self.n_dirs();
        let mut axis_keys: HashSet<u32> = HashSet::new();
        let mut i: usize = 0;
        while i < n
            invariant
                n == self.axes@.len(),
                nd == self.n_dirs(),
                i <= n,
                self.dirs_distinct_before(nd),
                self.axis_keys_distinct_before(i as int),
                forall|ch: char| axis_keys@.contains(ch as u32) <==> #[trigger] live_before(self.axis_key_at(), ch, i as int),
            decreases n - i,
        {
            let ch = self.axes[i].axis_key;
            proof {
                assert(vstd::std_specs::hash::obeys_key_model::<u32>());
                assert(vstd::std_specs::hash::builds_valid_hashers::<std::collections::hash_map::RandomState>());
                assert(self.axis_key_at()(i as int) == ch);
            }
            let ghost before = axis_keys@;
            if !is_disabled_key(ch) && !axis_keys.insert(ch as u32) {
                assert(live_before(self.axis_key_at(), ch, i as int));
                assert(self.axis_key_repeats(i as int));
                assert(!self.axis_keys_distinct_before(n as int));
                return Err(duplicate_axis_key_text(ch, i));
            }
            assert(!self.axis_key_repeats(i as int)) by {
                if self.axis_key_repeats(i as int) {
                    assert(live_before(self.axis_key_at(), ch, i as int));
                }
            }
            proof {
                lemma_record_live(self.axis_key_at(), i as int, before, axis_keys@);
            }
            i = i + 1;
        }
        assert forall|ch: char|
            (selects@.contains(ch as u32) || sides@.contains(ch as u32) || axis_keys@.contains(ch as u32))
                <==> self.is_axis_key(ch) by {
            assert(selects@.contains(ch as u32) <==> live_before(self.select_key_at(), ch, nd));
            assert(sides@.contains(ch as u32) <==> live_before(self.side_key_at(), ch, nd));
            assert(axis_keys@.contains(ch as u32) <==> live_before(self.axis_key_at(), ch, n as int));
        }
        let gk = &self.global_keys;
        let nl = gk.layers.len();
        let mut i: usize = 0;
        while i < nl
            invariant
                nl == self.global_keys.layers@.len(),
                gk == &self.global_keys,
                i <= nl,
                self.dirs_distinct_before(self.n_dirs()),
                self.axis_keys_distinct_before(self.axes@.len() as int),
                self.layers_free_before(i as int),
                forall|ch: char|
                    (selects@.contains(ch as u32) || sides@.contains(ch as u32) || axis_keys@.contains(ch as u32))
                        <==> self.is_axis_key(ch),
            decreases nl - i,
        {
            let ch = gk.layers[i];
            if held_by_any(&selects, &sides, &axis_keys, ch) {
                assert(self.is_axis_key(self.global_keys.layers@[i as int]));
                assert(!self.layers_free_before(nl as int));
                let place = layer_place_text(i);
                return Err(conflict_text(ch, place.as_str()));
            }
            i = i + 1;
        }
        let named = vec![
            gk.rotate,
            gk.scramble,
            gk.reset,
            gk.keybind_mode,
            gk.axis_mode,
            gk.undo,
            gk.redo,
            gk.next_filter,
            gk.prev_filter,
            gk.live_filter_mode,
            gk.reset_mode,
            gk.save,
            gk.rev_start,
            gk.rev_stop,
            gk.rev_unwind,
            gk.rev_commutator,
        ];
        let labels = vec![
            "global rotate",
            "global scramble",
            "global reset",
            "global keybind_mode",
            "global axis_mode",
            "global undo",
            "global redo",
            "global next_filter",
            "global prev_filter",
            "global live_filter_mode",
            "global reset_mode",
            "global save",
            "global rev_start",
            "global rev_stop",
            "global rev_unwind",
            "global rev_commutator",
        ];
        assert(named@ == gk.named_keys());
        assert(labels@.len() == 16);
        assert(forall|j: int| 0 <= j < 16 ==> #[trigger] labels@[j]@ == global_key_labels()[j]);
        let mut i: usize = 0;
        while i < 16
            invariant
                i <= 16,
                named@ == self.global_keys.named_keys(),
                labels@.len() == 16,
                forall|j: int| 0 <= j < 16 ==> #[trigger] labels@[j]@ == global_key_labels()[j],
                self.dirs_distinct_before(self.n_dirs()),
                self.axis_keys_distinct_before(self.axes@.len() as int),
                self.layers_free_before(self.global_keys.layers@.len() as int),
                self.named_free_before(i as int),
                forall|ch: char|
                    (selects@.contains(ch as u32) || sides@.contains(ch as u32) || axis_keys@.contains(ch as u32))
                        <==> self.is_axis_key(ch),
            decreases 16 - i,
        {
            let ch = named[i];
            if held_by_any(&selects, &sides, &axis_keys, ch) {
                assert(self.is_axis_key(self.global_keys.named_keys()[i as int]));
                assert(!self.named_free_before(16));
                return Err(conflict_text(ch, labels[i]));
            }
            i = i + 1;
        }
        Ok(())
    }
}

} // verus!
