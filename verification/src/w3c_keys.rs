//! The mapping from W3C `KeyboardEvent.code` values to platform-specific scan codes and keycodes.
//!
//! Windows: USB HID/PS2 Set 1 scancodes (what `MapVirtualKeyExW(..., MAPVK_VSC_TO_VK_EX, ...)`
//! takes). macOS: Carbon `kVK_...` virtual keycodes. Linux: the input subsystem `KEY_*` values
//! (evdev keycodes), which xkbcommon uses offset by 8.
use vstd::prelude::*;

use crate::text::str_eq;

verus! {

/// A single row of the W3C-to-platform mapping table.
#[derive(Debug, Clone, Copy, PartialEq, Eq)]
pub struct W3cKey {
    /// W3C `KeyboardEvent.code` string, e.g. `KeyA`, `Digit1`.
    pub code: &'static str,
    /// Windows Set 1 scan code.
    pub windows_scancode: u32,
    /// macOS virtual keycode.
    pub macos_keycode: u32,
    /// Linux evdev keycode.
    pub linux_keycode: u32,
}

pub struct W3cKeyView {
    pub code: Seq<char>,
    pub windows_scancode: u32,
    pub macos_keycode: u32,
    pub linux_keycode: u32,
}

impl DeepView for W3cKey {
    type V = W3cKeyView;

    open spec fn deep_view(&self) -> W3cKeyView {
        W3cKeyView {
            code: self.code@,
            windows_scancode: self.windows_scancode,
            macos_keycode: self.macos_keycode,
            linux_keycode: self.linux_keycode,
        }
    }
}

/// The table, in W3C logical order.
pub open spec fn w3c_table() -> Seq<W3cKeyView> {
    seq![
        W3cKeyView { code: "Backquote"@, windows_scancode: 0x29, macos_keycode: 50, linux_keycode: 41 },
        W3cKeyView { code: "Digit1"@, windows_scancode: 0x02, macos_keycode: 18, linux_keycode: 2 },
        W3cKeyView { code: "Digit2"@, windows_scancode: 0x03, macos_keycode: 19, linux_keycode: 3 },
        W3cKeyView { code: "Digit3"@, windows_scancode: 0x04, macos_keycode: 20, linux_keycode: 4 },
        W3cKeyView { code: "Digit4"@, windows_scancode: 0x05, macos_keycode: 21, linux_keycode: 5 },
        W3cKeyView { code: "Digit5"@, windows_scancode: 0x06, macos_keycode: 23, linux_keycode: 6 },
        W3cKeyView { code: "Digit6"@, windows_scancode: 0x07, macos_keycode: 22, linux_keycode: 7 },
        W3cKeyView { code: "Digit7"@, windows_scancode: 0x08, macos_keycode: 26, linux_keycode: 8 },
        W3cKeyView { code: "Digit8"@, windows_scancode: 0x09, macos_keycode: 28, linux_keycode: 9 },
        W3cKeyView { code: "Digit9"@, windows_scancode: 0x0A, macos_keycode: 25, linux_keycode: 10 },
        W3cKeyView { code: "Digit0"@, windows_scancode: 0x0B, macos_keycode: 29, linux_keycode: 11 },
        W3cKeyView { code: "Minus"@, windows_scancode: 0x0C, macos_keycode: 27, linux_keycode: 12 },
        W3cKeyView { code: "Equal"@, windows_scancode: 0x0D, macos_keycode: 24, linux_keycode: 13 },
        W3cKeyView { code: "KeyQ"@, windows_scancode: 0x10, macos_keycode: 12, linux_keycode: 16 },
        W3cKeyView { code: "KeyW"@, windows_scancode: 0x11, macos_keycode: 13, linux_keycode: 17 },
        W3cKeyView { code: "KeyE"@, windows_scancode: 0x12, macos_keycode: 14, linux_keycode: 18 },
        W3cKeyView { code: "KeyR"@, windows_scancode: 0x13, macos_keycode: 15, linux_keycode: 19 },
        W3cKeyView { code: "KeyT"@, windows_scancode: 0x14, macos_keycode: 17, linux_keycode: 20 },
        W3cKeyView { code: "KeyY"@, windows_scancode: 0x15, macos_keycode: 16, linux_keycode: 21 },
        W3cKeyView { code: "KeyU"@, windows_scancode: 0x16, macos_keycode: 32, linux_keycode: 22 },
        W3cKeyView { code: "KeyI"@, windows_scancode: 0x17, macos_keycode: 34, linux_keycode: 23 },
        W3cKeyView { code: "KeyO"@, windows_scancode: 0x18, macos_keycode: 31, linux_keycode: 24 },
        W3cKeyView { code: "KeyP"@, windows_scancode: 0x19, macos_keycode: 35, linux_keycode: 25 },
        W3cKeyView { code: "BracketLeft"@, windows_scancode: 0x1A, macos_keycode: 33, linux_keycode: 26 },
        W3cKeyView { code: "BracketRight"@, windows_scancode: 0x1B, macos_keycode: 30, linux_keycode: 27 },
        W3cKeyView { code: "Backslash"@, windows_scancode: 0x2B, macos_keycode: 42, linux_keycode: 43 },
        W3cKeyView { code: "KeyA"@, windows_scancode: 0x1E, macos_keycode: 0, linux_keycode: 30 },
        W3cKeyView { code: "KeyS"@, windows_scancode: 0x1F, macos_keycode: 1, linux_keycode: 31 },
        W3cKeyView { code: "KeyD"@, windows_scancode: 0x20, macos_keycode: 2, linux_keycode: 32 },
        W3cKeyView { code: "KeyF"@, windows_scancode: 0x21, macos_keycode: 3, linux_keycode: 33 },
        W3cKeyView { code: "KeyG"@, windows_scancode: 0x22, macos_keycode: 5, linux_keycode: 34 },
        W3cKeyView { code: "KeyH"@, windows_scancode: 0x23, macos_keycode: 4, linux_keycode: 35 },
        W3cKeyView { code: "KeyJ"@, windows_scancode: 0x24, macos_keycode: 38, linux_keycode: 36 },
        W3cKeyView { code: "KeyK"@, windows_scancode: 0x25, macos_keycode: 40, linux_keycode: 37 },
        W3cKeyView { code: "KeyL"@, windows_scancode: 0x26, macos_keycode: 37, linux_keycode: 38 },
        W3cKeyView { code: "Semicolon"@, windows_scancode: 0x27, macos_keycode: 41, linux_keycode: 39 },
        W3cKeyView { code: "Quote"@, windows_scancode: 0x28, macos_keycode: 39, linux_keycode: 40 },
        W3cKeyView { code: "KeyZ"@, windows_scancode: 0x2C, macos_keycode: 6, linux_keycode: 44 },
        W3cKeyView { code: "KeyX"@, windows_scancode: 0x2D, macos_keycode: 7, linux_keycode: 45 },
        W3cKeyView { code: "KeyC"@, windows_scancode: 0x2E, macos_keycode: 8, linux_keycode: 46 },
        W3cKeyView { code: "KeyV"@, windows_scancode: 0x2F, macos_keycode: 9, linux_keycode: 47 },
        W3cKeyView { code: "KeyB"@, windows_scancode: 0x30, macos_keycode: 11, linux_keycode: 48 },
        W3cKeyView { code: "KeyN"@, windows_scancode: 0x31, macos_keycode: 45, linux_keycode: 49 },
        W3cKeyView { code: "KeyM"@, windows_scancode: 0x32, macos_keycode: 46, linux_keycode: 50 },
        W3cKeyView { code: "Comma"@, windows_scancode: 0x33, macos_keycode: 43, linux_keycode: 51 },
        W3cKeyView { code: "Period"@, windows_scancode: 0x34, macos_keycode: 47, linux_keycode: 52 },
        W3cKeyView { code: "Slash"@, windows_scancode: 0x35, macos_keycode: 44, linux_keycode: 53 },
        W3cKeyView { code: "IntlBackslash"@, windows_scancode: 0x56, macos_keycode: 10, linux_keycode: 86 },
        W3cKeyView { code: "IntlRo"@, windows_scancode: 0x73, macos_keycode: 94, linux_keycode: 89 },
        W3cKeyView { code: "IntlYen"@, windows_scancode: 0x7D, macos_keycode: 93, linux_keycode: 124 },
        W3cKeyView { code: "Space"@, windows_scancode: 0x39, macos_keycode: 49, linux_keycode: 57 },
    ]
}

/// The full table, in W3C logical order.
pub fn w3c_keys() -> (v: Vec<W3cKey>)
    ensures
        v.deep_view() == w3c_table(),
{
    let mut v: Vec<W3cKey> = Vec::new();
    v.push(W3cKey { code: "Backquote", windows_scancode: 0x29, macos_keycode: 50, linux_keycode: 41 });
    v.push(W3cKey { code: "Digit1", windows_scancode: 0x02, macos_keycode: 18, linux_keycode: 2 });
    v.push(W3cKey { code: "Digit2", windows_scancode: 0x03, macos_keycode: 19, linux_keycode: 3 });
    v.push(W3cKey { code: "Digit3", windows_scancode: 0x04, macos_keycode: 20, linux_keycode: 4 });
    v.push(W3cKey { code: "Digit4", windows_scancode: 0x05, macos_keycode: 21, linux_keycode: 5 });
    v.push(W3cKey { code: "Digit5", windows_scancode: 0x06, macos_keycode: 23, linux_keycode: 6 });
    v.push(W3cKey { code: "Digit6", windows_scancode: 0x07, macos_keycode: 22, linux_keycode: 7 });
    v.push(W3cKey { code: "Digit7", windows_scancode: 0x08, macos_keycode: 26, linux_keycode: 8 });
    v.push(W3cKey { code: "Digit8", windows_scancode: 0x09, macos_keycode: 28, linux_keycode: 9 });
    v.push(W3cKey { code: "Digit9", windows_scancode: 0x0A, macos_keycode: 25, linux_keycode: 10 });
    v.push(W3cKey { code: "Digit0", windows_scancode: 0x0B, macos_keycode: 29, linux_keycode: 11 });
    v.push(W3cKey { code: "Minus", windows_scancode: 0x0C, macos_keycode: 27, linux_keycode: 12 });
    v.push(W3cKey { code: "Equal", windows_scancode: 0x0D, macos_keycode: 24, linux_keycode: 13 });
    v.push(W3cKey { code: "KeyQ", windows_scancode: 0x10, macos_keycode: 12, linux_keycode: 16 });
    v.push(W3cKey { code: "KeyW", windows_scancode: 0x11, macos_keycode: 13, linux_keycode: 17 });
    v.push(W3cKey { code: "KeyE", windows_scancode: 0x12, macos_keycode: 14, linux_keycode: 18 });
    v.push(W3cKey { code: "KeyR", windows_scancode: 0x13, macos_keycode: 15, linux_keycode: 19 });
    v.push(W3cKey { code: "KeyT", windows_scancode: 0x14, macos_keycode: 17, linux_keycode: 20 });
    v.push(W3cKey { code: "KeyY", windows_scancode: 0x15, macos_keycode: 16, linux_keycode: 21 });
    v.push(W3cKey { code: "KeyU", windows_scancode: 0x16, macos_keycode: 32, linux_keycode: 22 });
    v.push(W3cKey { code: "KeyI", windows_scancode: 0x17, macos_keycode: 34, linux_keycode: 23 });
    v.push(W3cKey { code: "KeyO", windows_scancode: 0x18, macos_keycode: 31, linux_keycode: 24 });
    v.push(W3cKey { code: "KeyP", windows_scancode: 0x19, macos_keycode: 35, linux_keycode: 25 });
    v.push(W3cKey { code: "BracketLeft", windows_scancode: 0x1A, macos_keycode: 33, linux_keycode: 26 });
    v.push(W3cKey { code: "BracketRight", windows_scancode: 0x1B, macos_keycode: 30, linux_keycode: 27 });
    v.push(W3cKey { code: "Backslash", windows_scancode: 0x2B, macos_keycode: 42, linux_keycode: 43 });
    v.push(W3cKey { code: "KeyA", windows_scancode: 0x1E, macos_keycode: 0, linux_keycode: 30 });
    v.push(W3cKey { code: "KeyS", windows_scancode: 0x1F, macos_keycode: 1, linux_keycode: 31 });
    v.push(W3cKey { code: "KeyD", windows_scancode: 0x20, macos_keycode: 2, linux_keycode: 32 });
    v.push(W3cKey { code: "KeyF", windows_scancode: 0x21, macos_keycode: 3, linux_keycode: 33 });
    v.push(W3cKey { code: "KeyG", windows_scancode: 0x22, macos_keycode: 5, linux_keycode: 34 });
    v.push(W3cKey { code: "KeyH", windows_scancode: 0x23, macos_keycode: 4, linux_keycode: 35 });
    v.push(W3cKey { code: "KeyJ", windows_scancode: 0x24, macos_keycode: 38, linux_keycode: 36 });
    v.push(W3cKey { code: "KeyK", windows_scancode: 0x25, macos_keycode: 40, linux_keycode: 37 });
    v.push(W3cKey { code: "KeyL", windows_scancode: 0x26, macos_keycode: 37, linux_keycode: 38 });
    v.push(W3cKey { code: "Semicolon", windows_scancode: 0x27, macos_keycode: 41, linux_keycode: 39 });
    v.push(W3cKey { code: "Quote", windows_scancode: 0x28, macos_keycode: 39, linux_keycode: 40 });
    v.push(W3cKey { code: "KeyZ", windows_scancode: 0x2C, macos_keycode: 6, linux_keycode: 44 });
    v.push(W3cKey { code: "KeyX", windows_scancode: 0x2D, macos_keycode: 7, linux_keycode: 45 });
    v.push(W3cKey { code: "KeyC", windows_scancode: 0x2E, macos_keycode: 8, linux_keycode: 46 });
    v.push(W3cKey { code: "KeyV", windows_scancode: 0x2F, macos_keycode: 9, linux_keycode: 47 });
    v.push(W3cKey { code: "KeyB", windows_scancode: 0x30, macos_keycode: 11, linux_keycode: 48 });
    v.push(W3cKey { code: "KeyN", windows_scancode: 0x31, macos_keycode: 45, linux_keycode: 49 });
    v.push(W3cKey { code: "KeyM", windows_scancode: 0x32, macos_keycode: 46, linux_keycode: 50 });
    v.push(W3cKey { code: "Comma", windows_scancode: 0x33, macos_keycode: 43, linux_keycode: 51 });
    v.push(W3cKey { code: "Period", windows_scancode: 0x34, macos_keycode: 47, linux_keycode: 52 });
    v.push(W3cKey { code: "Slash", windows_scancode: 0x35, macos_keycode: 44, linux_keycode: 53 });
    v.push(W3cKey { code: "IntlBackslash", windows_scancode: 0x56, macos_keycode: 10, linux_keycode: 86 });
    v.push(W3cKey { code: "IntlRo", windows_scancode: 0x73, macos_keycode: 94, linux_keycode: 89 });
    v.push(W3cKey { code: "IntlYen", windows_scancode: 0x7D, macos_keycode: 93, linux_keycode: 124 });
    v.push(W3cKey { code: "Space", windows_scancode: 0x39, macos_keycode: 49, linux_keycode: 57 });
    assert(v.deep_view() =~= w3c_table());
    v
}

/// Position of the first row whose code is `code`, or the table length when there is none.
pub open spec fn code_pos(t: Seq<W3cKeyView>, code: Seq<char>) -> nat
    decreases t.len(),
{
    if t.len() == 0 || t[0].code == code {
        0
    } else {
        1 + code_pos(t.drop_first(), code)
    }
}

/// Look up a row by its W3C `code` string.
pub fn lookup(code: &str) -> (r: Option<W3cKey>)
    ensures
        match r {
            Some(k) => code_pos(w3c_table(), code@) < w3c_table().len() && k.deep_view() == w3c_table()[code_pos(w3c_table(), code@) as int],
            None => code_pos(w3c_table(), code@) >= w3c_table().len(),
        },
{
    let keys = w3c_keys();
    let ghost t = w3c_table();
    let n = keys.len();
    assert(t.skip(0) =~= t);
    for i in 0..n
        invariant
            n == t.len(),
            keys.deep_view() == t,
            t == w3c_table(),
            code_pos(t, code@) == i + code_pos(t.skip(i as int), code@),
    {
        assert(t.skip(i as int)[0] == t[i as int]);
        assert(t.skip(i as int).drop_first() =~= t.skip(i + 1));
        assert(keys[i as int].deep_view() == t[i as int]);
        if str_eq(keys[i].code, code) {
            return Some(keys[i]);
        }
    }
    None
}

/// All W3C codes of the table, in order.
pub fn all_codes() -> (r: Vec<&'static str>)
    ensures
        r.deep_view() == w3c_table().map_values(|k: W3cKeyView| k.code),
{
    let keys = w3c_keys();
    let ghost t = w3c_table();
    let mut r: Vec<&'static str> = Vec::new();
    for i in 0..keys.len()
        invariant
            keys.deep_view() == t,
            t == w3c_table(),
            r.deep_view() == t.take(i as int).map_values(|k: W3cKeyView| k.code),
    {
        let ghost prev = r.deep_view();
        assert(keys[i as int].deep_view() == t[i as int]);
        r.push(keys[i].code);
        assert(r.deep_view() =~= prev.push(t[i as int].code));
        assert(t.take(i + 1) =~= t.take(i as int).push(t[i as int]));
        assert(r.deep_view() =~= t.take(i + 1).map_values(|k: W3cKeyView| k.code));
    }
    assert(t.take(t.len() as int) =~= t);
    r
}

/// The table has a row for `code` with these platform codes.
pub open spec fn has_row(code: Seq<char>, windows_scancode: u32, macos_keycode: u32, linux_keycode: u32) -> bool {
    exists|i: int|
        0 <= i < w3c_table().len() && #[trigger] w3c_table()[i] == (W3cKeyView { code, windows_scancode, macos_keycode, linux_keycode })
}

/// The table has exactly these rows: each W3C code with its Set 1 scancode, its Carbon `kVK_*`
/// virtual keycode and its Linux evdev `KEY_*` code (e.g. `KeyZ`: 0x2C, 6, `KEY_Z` = 44; `KeyX`:
/// 0x2D, 7, `KEY_X` = 45).
pub proof fn lemma_w3c_platform_codes()
    ensures
        w3c_table().len() == 51,
        has_row("Backquote"@, 0x29, 50, 41),
        has_row("Digit1"@, 0x02, 18, 2),
        has_row("Digit2"@, 0x03, 19, 3),
        has_row("Digit3"@, 0x04, 20, 4),
        has_row("Digit4"@, 0x05, 21, 5),
        has_row("Digit5"@, 0x06, 23, 6),
        has_row("Digit6"@, 0x07, 22, 7),
        has_row("Digit7"@, 0x08, 26, 8),
        has_row("Digit8"@, 0x09, 28, 9),
        has_row("Digit9"@, 0x0A, 25, 10),
        has_row("Digit0"@, 0x0B, 29, 11),
        has_row("Minus"@, 0x0C, 27, 12),
        has_row("Equal"@, 0x0D, 24, 13),
        has_row("KeyQ"@, 0x10, 12, 16),
        has_row("KeyW"@, 0x11, 13, 17),
        has_row("KeyE"@, 0x12, 14, 18),
        has_row("KeyR"@, 0x13, 15, 19),
        has_row("KeyT"@, 0x14, 17, 20),
        has_row("KeyY"@, 0x15, 16, 21),
        has_row("KeyU"@, 0x16, 32, 22),
        has_row("KeyI"@, 0x17, 34, 23),
        has_row("KeyO"@, 0x18, 31, 24),
        has_row("KeyP"@, 0x19, 35, 25),
        has_row("BracketLeft"@, 0x1A, 33, 26),
        has_row("BracketRight"@, 0x1B, 30, 27),
        has_row("Backslash"@, 0x2B, 42, 43),
        has_row("KeyA"@, 0x1E, 0, 30),
        has_row("KeyS"@, 0x1F, 1, 31),
        has_row("KeyD"@, 0x20, 2, 32),
        has_row("KeyF"@, 0x21, 3, 33),
        has_row("KeyG"@, 0x22, 5, 34),
        has_row("KeyH"@, 0x23, 4, 35),
        has_row("KeyJ"@, 0x24, 38, 36),
        has_row("KeyK"@, 0x25, 40, 37),
        has_row("KeyL"@, 0x26, 37, 38),
        has_row("Semicolon"@, 0x27, 41, 39),
        has_row("Quote"@, 0x28, 39, 40),
        has_row("KeyZ"@, 0x2C, 6, 44),
        has_row("KeyX"@, 0x2D, 7, 45),
        has_row("KeyC"@, 0x2E, 8, 46),
        has_row("KeyV"@, 0x2F, 9, 47),
        has_row("KeyB"@, 0x30, 11, 48),
        has_row("KeyN"@, 0x31, 45, 49),
        has_row("KeyM"@, 0x32, 46, 50),
        has_row("Comma"@, 0x33, 43, 51),
        has_row("Period"@, 0x34, 47, 52),
        has_row("Slash"@, 0x35, 44, 53),
        has_row("IntlBackslash"@, 0x56, 10, 86),
        has_row("IntlRo"@, 0x73, 94, 89),
        has_row("IntlYen"@, 0x7D, 93, 124),
        has_row("Space"@, 0x39, 49, 57),
{
    assert(w3c_table()[0] == W3cKeyView { code: "Backquote"@, windows_scancode: 0x29, macos_keycode: 50, linux_keycode: 41 });
    assert(w3c_table()[1] == W3cKeyView { code: "Digit1"@, windows_scancode: 0x02, macos_keycode: 18, linux_keycode: 2 });
    assert(w3c_table()[2] == W3cKeyView { code: "Digit2"@, windows_scancode: 0x03, macos_keycode: 19, linux_keycode: 3 });
    assert(w3c_table()[3] == W3cKeyView { code: "Digit3"@, windows_scancode: 0x04, macos_keycode: 20, linux_keycode: 4 });
    assert(w3c_table()[4] == W3cKeyView { code: "Digit4"@, windows_scancode: 0x05, macos_keycode: 21, linux_keycode: 5 });
    assert(w3c_table()[5] == W3cKeyView { code: "Digit5"@, windows_scancode: 0x06, macos_keycode: 23, linux_keycode: 6 });
    assert(w3c_table()[6] == W3cKeyView { code: "Digit6"@, windows_scancode: 0x07, macos_keycode: 22, linux_keycode: 7 });
    assert(w3c_table()[7] == W3cKeyView { code: "Digit7"@, windows_scancode: 0x08, macos_keycode: 26, linux_keycode: 8 });
    assert(w3c_table()[8] == W3cKeyView { code: "Digit8"@, windows_scancode: 0x09, macos_keycode: 28, linux_keycode: 9 });
    assert(w3c_table()[9] == W3cKeyView { code: "Digit9"@, windows_scancode: 0x0A, macos_keycode: 25, linux_keycode: 10 });
    assert(w3c_table()[10] == W3cKeyView { code: "Digit0"@, windows_scancode: 0x0B, macos_keycode: 29, linux_keycode: 11 });
    assert(w3c_table()[11] == W3cKeyView { code: "Minus"@, windows_scancode: 0x0C, macos_keycode: 27, linux_keycode: 12 });
    assert(w3c_table()[12] == W3cKeyView { code: "Equal"@, windows_scancode: 0x0D, macos_keycode: 24, linux_keycode: 13 });
    assert(w3c_table()[13] == W3cKeyView { code: "KeyQ"@, windows_scancode: 0x10, macos_keycode: 12, linux_keycode: 16 });
    assert(w3c_table()[14] == W3cKeyView { code: "KeyW"@, windows_scancode: 0x11, macos_keycode: 13, linux_keycode: 17 });
    assert(w3c_table()[15] == W3cKeyView { code: "KeyE"@, windows_scancode: 0x12, macos_keycode: 14, linux_keycode: 18 });
    assert(w3c_table()[16] == W3cKeyView { code: "KeyR"@, windows_scancode: 0x13, macos_keycode: 15, linux_keycode: 19 });
    assert(w3c_table()[17] == W3cKeyView { code: "KeyT"@, windows_scancode: 0x14, macos_keycode: 17, linux_keycode: 20 });
    assert(w3c_table()[18] == W3cKeyView { code: "KeyY"@, windows_scancode: 0x15, macos_keycode: 16, linux_keycode: 21 });
    assert(w3c_table()[19] == W3cKeyView { code: "KeyU"@, windows_scancode: 0x16, macos_keycode: 32, linux_keycode: 22 });
    assert(w3c_table()[20] == W3cKeyView { code: "KeyI"@, windows_scancode: 0x17, macos_keycode: 34, linux_keycode: 23 });
    assert(w3c_table()[21] == W3cKeyView { code: "KeyO"@, windows_scancode: 0x18, macos_keycode: 31, linux_keycode: 24 });
    assert(w3c_table()[22] == W3cKeyView { code: "KeyP"@, windows_scancode: 0x19, macos_keycode: 35, linux_keycode: 25 });
    assert(w3c_table()[23] == W3cKeyView { code: "BracketLeft"@, windows_scancode: 0x1A, macos_keycode: 33, linux_keycode: 26 });
    assert(w3c_table()[24] == W3cKeyView { code: "BracketRight"@, windows_scancode: 0x1B, macos_keycode: 30, linux_keycode: 27 });
    assert(w3c_table()[25] == W3cKeyView { code: "Backslash"@, windows_scancode: 0x2B, macos_keycode: 42, linux_keycode: 43 });
    assert(w3c_table()[26] == W3cKeyView { code: "KeyA"@, windows_scancode: 0x1E, macos_keycode: 0, linux_keycode: 30 });
    assert(w3c_table()[27] == W3cKeyView { code: "KeyS"@, windows_scancode: 0x1F, macos_keycode: 1, linux_keycode: 31 });
    assert(w3c_table()[28] == W3cKeyView { code: "KeyD"@, windows_scancode: 0x20, macos_keycode: 2, linux_keycode: 32 });
    assert(w3c_table()[29] == W3cKeyView { code: "KeyF"@, windows_scancode: 0x21, macos_keycode: 3, linux_keycode: 33 });
    assert(w3c_table()[30] == W3cKeyView { code: "KeyG"@, windows_scancode: 0x22, macos_keycode: 5, linux_keycode: 34 });
    assert(w3c_table()[31] == W3cKeyView { code: "KeyH"@, windows_scancode: 0x23, macos_keycode: 4, linux_keycode: 35 });
    assert(w3c_table()[32] == W3cKeyView { code: "KeyJ"@, windows_scancode: 0x24, macos_keycode: 38, linux_keycode: 36 });
    assert(w3c_table()[33] == W3cKeyView { code: "KeyK"@, windows_scancode: 0x25, macos_keycode: 40, linux_keycode: 37 });
    assert(w3c_table()[34] == W3cKeyView { code: "KeyL"@, windows_scancode: 0x26, macos_keycode: 37, linux_keycode: 38 });
    assert(w3c_table()[35] == W3cKeyView { code: "Semicolon"@, windows_scancode: 0x27, macos_keycode: 41, linux_keycode: 39 });
    assert(w3c_table()[36] == W3cKeyView { code: "Quote"@, windows_scancode: 0x28, macos_keycode: 39, linux_keycode: 40 });
    assert(w3c_table()[37] == W3cKeyView { code: "KeyZ"@, windows_scancode: 0x2C, macos_keycode: 6, linux_keycode: 44 });
    assert(w3c_table()[38] == W3cKeyView { code: "KeyX"@, windows_scancode: 0x2D, macos_keycode: 7, linux_keycode: 45 });
    assert(w3c_table()[39] == W3cKeyView { code: "KeyC"@, windows_scancode: 0x2E, macos_keycode: 8, linux_keycode: 46 });
    assert(w3c_table()[40] == W3cKeyView { code: "KeyV"@, windows_scancode: 0x2F, macos_keycode: 9, linux_keycode: 47 });
    assert(w3c_table()[41] == W3cKeyView { code: "KeyB"@, windows_scancode: 0x30, macos_keycode: 11, linux_keycode: 48 });
    assert(w3c_table()[42] == W3cKeyView { code: "KeyN"@, windows_scancode: 0x31, macos_keycode: 45, linux_keycode: 49 });
    assert(w3c_table()[43] == W3cKeyView { code: "KeyM"@, windows_scancode: 0x32, macos_keycode: 46, linux_keycode: 50 });
    assert(w3c_table()[44] == W3cKeyView { code: "Comma"@, windows_scancode: 0x33, macos_keycode: 43, linux_keycode: 51 });
    assert(w3c_table()[45] == W3cKeyView { code: "Period"@, windows_scancode: 0x34, macos_keycode: 47, linux_keycode: 52 });
    assert(w3c_table()[46] == W3cKeyView { code: "Slash"@, windows_scancode: 0x35, macos_keycode: 44, linux_keycode: 53 });
    assert(w3c_table()[47] == W3cKeyView { code: "IntlBackslash"@, windows_scancode: 0x56, macos_keycode: 10, linux_keycode: 86 });
    assert(w3c_table()[48] == W3cKeyView { code: "IntlRo"@, windows_scancode: 0x73, macos_keycode: 94, linux_keycode: 89 });
    assert(w3c_table()[49] == W3cKeyView { code: "IntlYen"@, windows_scancode: 0x7D, macos_keycode: 93, linux_keycode: 124 });
    assert(w3c_table()[50] == W3cKeyView { code: "Space"@, windows_scancode: 0x39, macos_keycode: 49, linux_keycode: 57 });
}

} // verus!
