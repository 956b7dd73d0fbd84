//! Offline parser for Android `.kl` (key layout) and `.kcm` (key character map) files, and the
//! reverse mapping that turns them into a layout file.
//!
//! `.kl` maps Linux evdev keycodes to Android keycode names (`key 30 A`); `.kcm` maps Android
//! keycode names under modifier states to Unicode characters (and dead-key markers). The layout
//! is built by reversing the mapping through the W3C key table (Linux evdev keycode is the W3C
//! keycode on Android).
use vstd::prelude::*;
use vstd::string::*;

use crate::clock::{iso8601_of, now_iso8601};
use crate::model::{all_known, lemma_append_lists, lists, clone_strings, dead_key_view, single_view, KeymapError, is_known_modifier, layout_valid, lemma_append_ok, lemma_dead_key_view_valid, lemma_mappings_ok_no_error, lemma_single_view_valid, mappings_ok, LayoutMetadataView, KeyPressView, Keystroke, KeystrokeView, LayoutFile, LayoutFileView, LayoutMetadata};
use crate::strmap::{assoc_append, assoc_get, assoc_insert, keys_distinct, lemma_key_pos, StrMap};
use crate::w3c_keys::{w3c_keys, w3c_table, W3cKeyView};
use crate::text::{
    before, before_char, chars_eq_str, chars_to_string, count_before, index_of_from, is_ws,
    lines, parse_u32_radix, parse_u32_radix_chars, slice_chars, split_lines, split_words,
    starts_with, starts_with_str, str_chars, trim, trim_chars, trim_start, trim_start_chars,
    words,
};

verus! {

/// A Unicode scalar value: a code point outside the surrogate range, at most `0x10FFFF`.
pub open spec fn is_scalar(cp: u32) -> bool {
    cp < 0xD800 || (0xE000 <= cp && cp <= 0x10FFFF)
}

/// `char::from_u32`: the character with code point `cp` when `cp` is a Unicode scalar value,
/// else nothing.
#[verifier::external_body]
fn char_from_u32(cp: u32) -> (r: Option<char>)
    ensures
        r is Some <==> is_scalar(cp),
        r matches Some(c) ==> c as u32 == cp && c == cp as char,
{
    char::from_u32(cp)
}

/// What went wrong in decoding a quoted character literal.
#[derive(Debug, Clone, Copy, PartialEq, Eq)]
pub enum EscapeFault {
    /// Not a literal: fewer than two characters, or not enclosed in single quotes.
    Malformed,
    /// A `\u` (or, when `wide`, `\U`) escape whose digits are no hexadecimal number.
    BadHex { wide: bool },
    /// A `\u`/`\U` escape naming a code point that is no Unicode scalar value.
    BadCodepoint { codepoint: u32, wide: bool },
    /// A backslash at the very end.
    TrailingBackslash,
}

/// A refused `.kcm` character literal, with the literal as written.
#[derive(Debug, Clone, PartialEq, Eq)]
pub struct LiteralError {
    pub raw: String,
    pub fault: EscapeFault,
}

/// The character a simple escape stands for: `\n`, `\t`, `\r`, and any other character for
/// itself (which covers `\\`, `\'` and `\"`).
pub open spec fn escaped_char(e: char) -> char {
    if e == 'n' {
        '\n'
    } else if e == 't' {
        '\t'
    } else if e == 'r' {
        '\r'
    } else {
        e
    }
}

/// `c` put in front of a decoding result.
pub open spec fn prepend_decoded(c: Seq<char>, r: Result<Seq<char>, EscapeFault>) -> Result<Seq<char>, EscapeFault> {
    match r {
        Ok(t) => Ok(c + t),
        Err(f) => Err(f),
    }
}

/// The hexadecimal digits of a `\u` (4) or `\U` (6) escape: as many as remain, up to that count.
pub open spec fn escape_digits(rest: Seq<char>, wide: bool) -> Seq<char> {
    let w: int = if wide { 6 } else { 4 };
    if rest.len() < w {
        rest
    } else {
        rest.take(w)
    }
}

/// The text between the quotes of a character literal, with its escapes resolved: `\uXXXX`,
/// `\UXXXXXX`, `\n`, `\t`, `\r`, and a backslash before any other character stands for that
/// character.
pub open spec fn decode_body(s: Seq<char>) -> Result<Seq<char>, EscapeFault>
    decreases s.len(),
{
    if s.len() == 0 {
        Ok(seq![])
    } else if s[0] != '\\' {
        prepend_decoded(seq![s[0]], decode_body(s.drop_first()))
    } else if s.len() == 1 {
        Err(EscapeFault::TrailingBackslash)
    } else if s[1] == 'u' || s[1] == 'U' {
        let wide = s[1] == 'U';
        let hex = escape_digits(s.skip(2), wide);
        match parse_u32_radix(hex, 16) {
            None => Err(EscapeFault::BadHex { wide }),
            Some(cp) => if is_scalar(cp) {
                prepend_decoded(seq![cp as char], decode_body(s.skip(2 + hex.len() as int)))
            } else {
                Err(EscapeFault::BadCodepoint { codepoint: cp, wide })
            },
        }
    } else {
        prepend_decoded(seq![escaped_char(s[1])], decode_body(s.skip(2)))
    }
}

/// A character literal: at least two characters, enclosed in single quotes, whose inside
/// decodes.
pub open spec fn decode_literal(raw: Seq<char>) -> Result<Seq<char>, EscapeFault> {
    if raw.len() < 2 || raw[0] != '\'' || raw.last() != '\'' {
        Err(EscapeFault::Malformed)
    } else {
        decode_body(raw.subrange(1, raw.len() - 1))
    }
}

proof fn lemma_prepend_push(prev: Seq<char>, c: char, r: Result<Seq<char>, EscapeFault>)
    ensures
        prepend_decoded(prev, prepend_decoded(seq![c], r)) == prepend_decoded(prev.push(c), r),
{
    match r {
        Ok(x) => {
            assert(prev + (seq![c] + x) =~= prev.push(c) + x);
        },
        Err(_) => {},
    }
}

/// Resolve a `.kcm` character literal such as `'a'` or `'\u00e4'` to the text it stands for.
pub fn decode_char_literal(raw: &str) -> (r: Result<String, LiteralError>)
    ensures
        match r {
            Ok(s) => decode_literal(raw@) == Ok::<Seq<char>, EscapeFault>(s@),
            Err(e) => decode_literal(raw@) == Err::<Seq<char>, EscapeFault>(e.fault) && e.raw@ == raw@,
        },
{
    let cs = str_chars(raw);
    match decode_literal_chars(cs.as_slice()) {
        Ok(v) => Ok(chars_to_string(v.as_slice())),
        Err(f) => Err(LiteralError { raw: raw.to_owned(), fault: f }),
    }
}

/// Decode a character literal given by its characters.
#[verifier::rlimit(30)]
pub fn decode_literal_chars(raw: &[char]) -> (r: Result<Vec<char>, EscapeFault>)
    ensures
        match r {
            Ok(v) => decode_literal(raw@) == Ok::<Seq<char>, EscapeFault>(v@),
            Err(f) => decode_literal(raw@) == Err::<Seq<char>, EscapeFault>(f),
        },
{
    let n = raw.len();
    if n < 2 || raw[0] != '\'' || raw[n - 1] != '\'' {
        return Err(EscapeFault::Malformed);
    }
    let inner = slice_chars(raw, 1, n - 1);
    let ghost s = inner@;
    assert(s =~= raw@.subrange(1, raw@.len() - 1));
    let mut out: Vec<char> = Vec::new();
    let mut i: usize = 0;
    let m = inner.len();
    assert(s.skip(0) =~= s);
    assert(out@ + Seq::<char>::empty() =~= out@);
    while i < m
        invariant
            m == inner@.len(),
            s == inner@,
            decode_literal(raw@) == decode_body(s),
            i <= m,
            decode_body(s) == prepend_decoded(out@, decode_body(s.skip(i as int))),
        decreases m - i,
    {
        let ghost t = s.skip(i as int);
        let c = inner[i];
        if c != '\\' {
            assert(t.drop_first() =~= s.skip(i + 1));
            let ghost prev = out@;
            out.push(c);
            proof {
                lemma_prepend_push(prev, c, decode_body(s.skip(i + 1)));
            }
            i += 1;
        } else if i + 1 >= m {
            return Err(EscapeFault::TrailingBackslash);
        } else {
            let e = inner[i + 1];
            if e == 'u' || e == 'U' {
                let wide = e == 'U';
                let w: usize = if wide { 6 } else { 4 };
                let hend = if m - (i + 2) < w { m } else { i + 2 + w };
                let hex = slice_chars(inner.as_slice(), i + 2, hend);
                assert(hex@ =~= escape_digits(t.skip(2), wide));
                match parse_u32_radix_chars(hex.as_slice(), 16) {
                    None => {
                        return Err(EscapeFault::BadHex { wide });
                    },
                    Some(cp) => {
                        match char_from_u32(cp) {
                            None => {
                                return Err(EscapeFault::BadCodepoint { codepoint: cp, wide });
                            },
                            Some(ch) => {
                                assert(t.skip(2 + hex@.len() as int) =~= s.skip(hend as int));
                                let ghost prev = out@;
                                out.push(ch);
                                assert(ch == cp as char);
                                proof {
                                    lemma_prepend_push(prev, ch, decode_body(s.skip(hend as int)));
                                }
                                i = hend;
                            },
                        }
                    },
                }
            } else {
                let d = if e == 'n' {
                    '\n'
                } else if e == 't' {
                    '\t'
                } else if e == 'r' {
                    '\r'
                } else {
                    e
                };
                assert(t.skip(2) =~= s.skip(i + 2));
                let ghost prev = out@;
                out.push(d);
                proof {
                    lemma_prepend_push(prev, d, decode_body(s.skip(i + 2)));
                }
                i = i + 2;
            }
        }
    }
    assert(s.skip(i as int) =~= Seq::<char>::empty());
    assert(out@ + Seq::<char>::empty() =~= out@);
    Ok(out)
}

/// Where a quoted literal that opens `s` ends: just past the first single quote after the
/// opening one that no backslash escapes, scanning from position `i` (`escape` when the
/// character before `i` was an escaping backslash); 1 when there is no such quote.
pub open spec fn literal_end_from(s: Seq<char>, i: int, escape: bool) -> int
    decreases s.len() - i,
{
    if i >= s.len() {
        1
    } else if escape {
        literal_end_from(s, i + 1, false)
    } else if s[i] == '\\' {
        literal_end_from(s, i + 1, true)
    } else if s[i] == '\'' {
        i + 1
    } else {
        literal_end_from(s, i + 1, false)
    }
}

pub proof fn lemma_literal_end_from(s: Seq<char>, i: int, escape: bool)
    requires
        1 <= i,
    ensures
        1 <= literal_end_from(s, i, escape) <= s.len() || literal_end_from(s, i, escape) == 1,
    decreases s.len() - i,
{
    if i < s.len() {
        if escape || s[i] != '\'' {
            lemma_literal_end_from(s, i + 1, if escape { false } else { s[i] == '\\' });
        }
    }
}

/// The word `dead` that marks a dead key.
pub open spec fn dead_word() -> Seq<char> {
    seq!['d', 'e', 'a', 'd']
}

/// The first single-quoted character literal of a `.kcm` line (comments stripped, leading
/// whitespace skipped): its decoded text, whether the word `dead` and nothing else follows it,
/// and the rest of the line after it (after the `dead` marker when there is one). Nothing when
/// the line does not start with a quote or the literal does not decode.
pub open spec fn char_literal(line: Seq<char>) -> Option<(Seq<char>, bool, Seq<char>)> {
    let l = trim_start(before(line, '#'));
    if l.len() == 0 || l[0] != '\'' {
        None
    } else {
        let end = literal_end_from(l, 1, false);
        let rest = trim_start(l.skip(end));
        let dead = starts_with(rest, dead_word()) && trim_start(rest.skip(4)).len() == 0;
        let rest2 = if dead {
            trim_start(rest.skip(4))
        } else {
            rest
        };
        match decode_literal(l.take(end)) {
            Ok(d) => Some((d, dead, rest2)),
            Err(_) => None,
        }
    }
}

/// Find where the literal that opens `l` ends.
fn literal_end_chars(l: &[char]) -> (end: usize)
    requires
        l@.len() >= 1,
    ensures
        end == literal_end_from(l@, 1, false),
        1 <= end <= l@.len(),
{
    proof {
        lemma_literal_end_from(l@, 1, false);
    }
    let mut i: usize = 1;
    let mut escape = false;
    while i < l.len()
        invariant
            1 <= i <= l@.len(),
            literal_end_from(l@, 1, false) == literal_end_from(l@, i as int, escape),
        decreases l@.len() - i,
    {
        if escape {
            escape = false;
        } else if l[i] == '\\' {
            escape = true;
        } else if l[i] == '\'' {
            return i + 1;
        }
        i += 1;
    }
    1
}

/// The first single-quoted character literal of a `.kcm` line, by characters.
pub fn char_literal_chars(line: &[char]) -> (r: Option<(Vec<char>, bool, Vec<char>)>)
    ensures
        match r {
            Some((d, dead, rest)) => char_literal(line@) == Some((d@, dead, rest@)),
            None => char_literal(line@) is None,
        },
{
    let b = before_char(line, '#');
    let l = trim_start_chars(b.as_slice());
    if l.len() == 0 || l[0] != '\'' {
        return None;
    }
    let end = literal_end_chars(l.as_slice());
    let raw = slice_chars(l.as_slice(), 0, end);
    assert(raw@ =~= l@.take(end as int));
    let tail = slice_chars(l.as_slice(), end, l.len());
    assert(tail@ =~= l@.skip(end as int));
    let rest = trim_start_chars(tail.as_slice());
    let mut dead = false;
    let mut rest2 = rest.clone();
    if starts_with_str(rest.as_slice(), "dead") {
        proof {
            reveal_strlit("dead");
        }
        assert("dead"@ =~= dead_word());
        let after_word = slice_chars(rest.as_slice(), 4, rest.len());
        assert(after_word@ =~= rest@.skip(4));
        let after = trim_start_chars(after_word.as_slice());
        if after.len() == 0 {
            dead = true;
            rest2 = after;
        }
    } else {
        proof {
            reveal_strlit("dead");
        }
        assert("dead"@ =~= dead_word());
    }
    match decode_literal_chars(raw.as_slice()) {
        Ok(d) => Some((d, dead, rest2)),
        Err(_) => None,
    }
}

/// Extract the first single-quoted character literal from a `.kcm` line: the decoded text,
/// whether it is marked `dead`, and the remainder of the line after it.
pub fn parse_char_literal(line: &str) -> (r: Option<(String, bool, String)>)
    ensures
        match r {
            Some((d, dead, rest)) => char_literal(line@) == Some((d@, dead, rest@)),
            None => char_literal(line@) is None,
        },
{
    let cs = str_chars(line);
    match char_literal_chars(cs.as_slice()) {
        Some((d, dead, rest)) => Some((chars_to_string(d.as_slice()), dead, chars_to_string(rest.as_slice()))),
        None => None,
    }
}

/// One row of a `.kl` file: `key <linux_keycode> <android_keycode_name>`.
#[derive(Debug, Clone, PartialEq, Eq)]
pub struct KlEntry {
    /// Linux evdev keycode, e.g. `30` for `A`.
    pub linux_keycode: u32,
    /// Android keycode name, e.g. `A`, `KEYCODE_A`, as written.
    pub android_name: String,
}

impl DeepView for KlEntry {
    type V = (u32, Seq<char>);

    open spec fn deep_view(&self) -> (u32, Seq<char>) {
        (self.linux_keycode, self.android_name@)
    }
}

/// A refused `.kl` line, with its 1-based line number.
#[derive(Debug, Clone, PartialEq, Eq)]
pub enum KlError {
    /// `key` with nothing after it.
    MissingKeycode { line: usize },
    /// A keycode that is no unsigned 32-bit decimal number.
    BadKeycode { line: usize, token: String },
    /// `key <keycode>` with no Android name after it.
    MissingAndroidName { line: usize },
}

pub enum KlErrorView {
    MissingKeycode { line: nat },
    BadKeycode { line: nat, token: Seq<char> },
    MissingAndroidName { line: nat },
}

impl View for KlError {
    type V = KlErrorView;

    open spec fn view(&self) -> KlErrorView {
        match self {
            KlError::MissingKeycode { line } => KlErrorView::MissingKeycode { line: *line as nat },
            KlError::BadKeycode { line, token } => KlErrorView::BadKeycode {
                line: *line as nat,
                token: token@,
            },
            KlError::MissingAndroidName { line } => KlErrorView::MissingAndroidName {
                line: *line as nat,
            },
        }
    }
}

/// What one `.kl` line contributes.
pub enum KlLine {
    Skip,
    Entry(u32, Seq<char>),
    Fail(KlErrorView),
}

pub open spec fn key_word() -> Seq<char> {
    seq!['k', 'e', 'y']
}

/// A `.kl` line, comments (`#` to the end) removed: lines whose first word is not `key` are
/// skipped; `key` must be followed by a decimal keycode and an Android name.
pub open spec fn kl_line(l: Seq<char>, line_no: nat) -> KlLine {
    let ws = words(before(l, '#'));
    if ws.len() == 0 || ws[0] != key_word() {
        KlLine::Skip
    } else if ws.len() < 2 {
        KlLine::Fail(KlErrorView::MissingKeycode { line: line_no })
    } else {
        match parse_u32_radix(ws[1], 10) {
            None => KlLine::Fail(KlErrorView::BadKeycode { line: line_no, token: ws[1] }),
            Some(code) => if ws.len() < 3 {
                KlLine::Fail(KlErrorView::MissingAndroidName { line: line_no })
            } else {
                KlLine::Entry(code, ws[2])
            },
        }
    }
}

pub open spec fn prepend_entries(
    es: Seq<(u32, Seq<char>)>,
    r: Result<Seq<(u32, Seq<char>)>, KlErrorView>,
) -> Result<Seq<(u32, Seq<char>)>, KlErrorView> {
    match r {
        Ok(t) => Ok(es + t),
        Err(e) => Err(e),
    }
}

/// The entries of the lines `ls`, numbered from `first`; the first refused line is the error.
pub open spec fn kl_lines(ls: Seq<Seq<char>>, first: nat) -> Result<Seq<(u32, Seq<char>)>, KlErrorView>
    decreases ls.len(),
{
    if ls.len() == 0 {
        Ok(seq![])
    } else {
        match kl_line(ls[0], first) {
            KlLine::Skip => kl_lines(ls.drop_first(), first + 1),
            KlLine::Entry(code, name) => prepend_entries(seq![(code, name)], kl_lines(ls.drop_first(), first + 1)),
            KlLine::Fail(e) => Err(e),
        }
    }
}

/// A whole `.kl` file.
pub open spec fn kl_file(input: Seq<char>) -> Result<Seq<(u32, Seq<char>)>, KlErrorView> {
    kl_lines(lines(input), 1)
}

proof fn lemma_prepend_entries(prev: Seq<(u32, Seq<char>)>, e: (u32, Seq<char>), r: Result<Seq<(u32, Seq<char>)>, KlErrorView>)
    ensures
        prepend_entries(prev, prepend_entries(seq![e], r)) == prepend_entries(prev.push(e), r),
{
    match r {
        Ok(x) => {
            assert(prev + (seq![e] + x) =~= prev.push(e) + x);
        },
        Err(_) => {},
    }
}

/// Parse a `.kl` file body.
pub fn parse_kl(input: &str) -> (r: Result<Vec<KlEntry>, KlError>)
    ensures
        match r {
            Ok(es) => kl_file(input@) == Ok::<Seq<(u32, Seq<char>)>, KlErrorView>(es.deep_view()),
            Err(e) => kl_file(input@) == Err::<Seq<(u32, Seq<char>)>, KlErrorView>(e@),
        },
{
    let cs = str_chars(input);
    let ls = split_lines(cs.as_slice());
    let ghost lsv = ls.deep_view();
    let mut entries: Vec<KlEntry> = Vec::new();
    let n = ls.len();
    assert(lsv.skip(0) =~= lsv);
    assert(entries.deep_view() + Seq::<(u32, Seq<char>)>::empty() =~= entries.deep_view());
    for i in 0..n
        invariant
            n == ls.len(),
            lsv == ls.deep_view(),
            lsv == lines(input@),
            kl_file(input@) == prepend_entries(entries.deep_view(), kl_lines(lsv.skip(i as int), (i + 1) as nat)),
    {
        let ghost rest = lsv.skip(i as int);
        assert(rest[0] == lsv[i as int]);
        assert(rest.drop_first() =~= lsv.skip(i + 1));
        assert(ls[i as int]@ == lsv[i as int]);
        let b = before_char(ls[i].as_slice(), '#');
        let ws = split_words(b.as_slice());
        let ghost wsv = ws.deep_view();
        let is_key = ws.len() > 0 && chars_eq_str(ws[0].as_slice(), "key");
        proof {
            reveal_strlit("key");
            assert("key"@ =~= key_word());
            if ws.len() > 0 {
                assert(wsv[0] == ws[0]@);
            }
        }
        if is_key {
            if ws.len() < 2 {
                return Err(KlError::MissingKeycode { line: i + 1 });
            }
            assert(wsv[1] == ws[1]@);
            match parse_u32_radix_chars(ws[1].as_slice(), 10) {
                None => {
                    return Err(KlError::BadKeycode { line: i + 1, token: chars_to_string(ws[1].as_slice()) });
                },
                Some(code) => {
                    if ws.len() < 3 {
                        return Err(KlError::MissingAndroidName { line: i + 1 });
                    }
                    assert(wsv[2] == ws[2]@);
                    let name = chars_to_string(ws[2].as_slice());
                    let ghost prev = entries.deep_view();
                    entries.push(KlEntry { linux_keycode: code, android_name: name });
                    assert(entries.deep_view() =~= prev.push((code, wsv[2])));
                    proof {
                        lemma_prepend_entries(prev, (code, wsv[2]), kl_lines(lsv.skip(i + 1), (i + 2) as nat));
                    }
                },
            }
        }
    }
    assert(lsv.skip(n as int) =~= Seq::<Seq<char>>::empty());
    assert(entries.deep_view() + Seq::<(u32, Seq<char>)>::empty() =~= entries.deep_view());
    Ok(entries)
}

/// A character produced by a `.kcm` key block under a particular modifier set.
#[derive(Debug, Clone, PartialEq, Eq)]
pub struct KcmMapping {
    /// The text between the quotes, with escapes resolved.
    pub output: String,
    /// Whether this output is a dead key.
    pub dead: bool,
}

pub struct KcmMappingView {
    pub output: Seq<char>,
    pub dead: bool,
}

impl DeepView for KcmMapping {
    type V = KcmMappingView;

    open spec fn deep_view(&self) -> KcmMappingView {
        KcmMappingView { output: self.output@, dead: self.dead }
    }
}

/// One `.kcm` key block: an optional label and modifier-state rows.
#[derive(Debug, Clone, PartialEq, Eq)]
pub struct KcmKey {
    /// `label:` value if present.
    pub label: Option<String>,
    /// Modifier-state name (e.g. `base`, `shift`, `shift, capslock`, `alt`) -> mapping.
    pub rows: StrMap<KcmMapping>,
}

pub struct KcmKeyView {
    pub label: Option<Seq<char>>,
    pub rows: Seq<(Seq<char>, KcmMappingView)>,
}

impl DeepView for KcmKey {
    type V = KcmKeyView;

    open spec fn deep_view(&self) -> KcmKeyView {
        KcmKeyView { label: self.label.deep_view(), rows: self.rows.pairs() }
    }
}

pub open spec fn empty_key() -> KcmKeyView {
    KcmKeyView { label: None, rows: seq![] }
}

impl Default for KcmKey {
    fn default() -> (k: KcmKey)
        ensures
            k.deep_view() == empty_key(),
    {
        let k = KcmKey { label: None, rows: StrMap::new() };
        assert(k.deep_view().rows =~= empty_key().rows);
        k
    }
}

/// The fully-parsed `.kcm` file: Android keycode name -> key block.
pub type KcmFile = StrMap<KcmKey>;

/// The fully-parsed `.kl` file.
pub type KlFile = Vec<KlEntry>;

/// A refused `.kcm` line.
#[derive(Debug, Clone, PartialEq, Eq)]
pub enum KcmError {
    /// A line outside a block that is no `[NAME]` header.
    ExpectedHeader { line: String },
    /// A `label` line of the named block with no `:` after the word.
    BadLabel { block: String },
    /// A row of the named block with no `:`.
    BadRow { block: String, row: String },
}

pub enum KcmErrorView {
    ExpectedHeader { line: Seq<char> },
    BadLabel { block: Seq<char> },
    BadRow { block: Seq<char>, row: Seq<char> },
}

impl View for KcmError {
    type V = KcmErrorView;

    open spec fn view(&self) -> KcmErrorView {
        match self {
            KcmError::ExpectedHeader { line } => KcmErrorView::ExpectedHeader { line: line@ },
            KcmError::BadLabel { block } => KcmErrorView::BadLabel { block: block@ },
            KcmError::BadRow { block, row } => KcmErrorView::BadRow { block: block@, row: row@ },
        }
    }
}

pub open spec fn label_word() -> Seq<char> {
    seq!['l', 'a', 'b', 'e', 'l']
}

/// A body line `bt` (comment removed, trimmed) of the block `name`: `label: 'x'` sets the label,
/// `state: 'x' [dead]` sets the row of that modifier state (the state trimmed); a literal that
/// does not decode leaves the block as it was.
pub open spec fn kcm_body(name: Seq<char>, key: KcmKeyView, bt: Seq<char>) -> Result<KcmKeyView, KcmErrorView> {
    if starts_with(bt, label_word()) {
        let r = trim_start(bt.skip(5));
        if r.len() == 0 || r[0] != ':' {
            Err(KcmErrorView::BadLabel { block: name })
        } else {
            match char_literal(trim_start(r.drop_first())) {
                Some(x) => Ok(KcmKeyView { label: Some(x.0), rows: key.rows }),
                None => Ok(key),
            }
        }
    } else if count_before(bt, ':') >= bt.len() {
        Err(KcmErrorView::BadRow { block: name, row: bt })
    } else {
        let k = count_before(bt, ':') as int;
        match char_literal(trim_start(bt.skip(k + 1))) {
            Some(x) => Ok(
                KcmKeyView {
                    label: key.label,
                    rows: assoc_insert(key.rows, trim(bt.take(k)), KcmMappingView { output: x.0, dead: x.1 }),
                },
            ),
            None => Ok(key),
        }
    }
}

/// Where the parser stands between lines: outside any block, or inside the block `name`.
pub enum KcmState {
    Outside,
    Block(Seq<char>, KcmKeyView),
}

/// The name in a `[NAME]` header line (trimmed, starting with `[`).
pub open spec fn header_name(t: Seq<char>) -> Seq<char> {
    trim(before(t.drop_first(), ']'))
}

/// One `.kcm` line. Blank lines (after comment removal) close a block; a line starting with `[`
/// closes the current block and opens a new one; other lines belong to the open block, and
/// outside any block they are an error. A closed block is stored under its name.
pub open spec fn kcm_step(
    file: Seq<(Seq<char>, KcmKeyView)>,
    st: KcmState,
    line: Seq<char>,
) -> Result<(Seq<(Seq<char>, KcmKeyView)>, KcmState), KcmErrorView> {
    let t = trim(before(line, '#'));
    match st {
        KcmState::Outside => if t.len() == 0 {
            Ok((file, KcmState::Outside))
        } else if t[0] != '[' {
            Err(KcmErrorView::ExpectedHeader { line: t })
        } else {
            Ok((file, KcmState::Block(header_name(t), empty_key())))
        },
        KcmState::Block(name, key) => if t.len() == 0 {
            Ok((assoc_insert(file, name, key), KcmState::Outside))
        } else if t[0] == '[' {
            Ok((assoc_insert(file, name, key), KcmState::Block(header_name(t), empty_key())))
        } else {
            match kcm_body(name, key, t) {
                Ok(k2) => Ok((file, KcmState::Block(name, k2))),
                Err(e) => Err(e),
            }
        },
    }
}

/// The blocks once the input ends: an open block is stored too.
pub open spec fn kcm_finish(file: Seq<(Seq<char>, KcmKeyView)>, st: KcmState) -> Seq<(Seq<char>, KcmKeyView)> {
    match st {
        KcmState::Outside => file,
        KcmState::Block(name, key) => assoc_insert(file, name, key),
    }
}

pub open spec fn kcm_run(
    file: Seq<(Seq<char>, KcmKeyView)>,
    st: KcmState,
    ls: Seq<Seq<char>>,
) -> Result<Seq<(Seq<char>, KcmKeyView)>, KcmErrorView>
    decreases ls.len(),
{
    if ls.len() == 0 {
        Ok(kcm_finish(file, st))
    } else {
        match kcm_step(file, st, ls[0]) {
            Ok((f, s2)) => kcm_run(f, s2, ls.drop_first()),
            Err(e) => Err(e),
        }
    }
}

/// A whole `.kcm` file: its key blocks by name (a later block of the same name replaces an
/// earlier one).
pub open spec fn kcm_file(input: Seq<char>) -> Result<Seq<(Seq<char>, KcmKeyView)>, KcmErrorView> {
    kcm_run(seq![], KcmState::Outside, lines(input))
}

/// Apply one body line to the open block.
fn kcm_body_line(name: &String, key: &mut KcmKey, bt: &[char]) -> (r: Result<(), KcmError>)
    ensures
        match r {
            Ok(()) => kcm_body(name@, old(key).deep_view(), bt@) == Ok::<KcmKeyView, KcmErrorView>(final(key).deep_view()),
            Err(e) => kcm_body(name@, old(key).deep_view(), bt@) == Err::<KcmKeyView, KcmErrorView>(e@),
        },
{
    proof {
        reveal_strlit("label");
        assert("label"@ =~= label_word());
    }
    if starts_with_str(bt, "label") {
        let after = slice_chars(bt, 5, bt.len());
        assert(after@ =~= bt@.skip(5));
        let r = trim_start_chars(after.as_slice());
        if r.len() == 0 || r[0] != ':' {
            return Err(KcmError::BadLabel { block: name.clone() });
        }
        let r1 = slice_chars(r.as_slice(), 1, r.len());
        assert(r1@ =~= r@.drop_first());
        let r2 = trim_start_chars(r1.as_slice());
        match char_literal_chars(r2.as_slice()) {
            Some((lit, _, _)) => {
                key.label = Some(chars_to_string(lit.as_slice()));
            },
            None => {},
        }
        Ok(())
    } else {
        let k = index_of_from(bt, ':', 0);
        assert(bt@.skip(0) =~= bt@);
        if k >= bt.len() {
            return Err(KcmError::BadRow { block: name.clone(), row: chars_to_string(bt) });
        }
        let state = slice_chars(bt, 0, k);
        assert(state@ =~= bt@.take(k as int));
        let state_label = trim_chars(state.as_slice());
        let after = slice_chars(bt, k + 1, bt.len());
        assert(after@ =~= bt@.skip(k + 1));
        let after2 = trim_start_chars(after.as_slice());
        match char_literal_chars(after2.as_slice()) {
            Some((lit, dead, _)) => {
                let m = KcmMapping { output: chars_to_string(lit.as_slice()), dead };
                let _ = key.rows.insert(chars_to_string(state_label.as_slice()), m);
            },
            None => {},
        }
        Ok(())
    }
}

pub open spec fn kcm_state_view(cur: Option<(String, KcmKey)>) -> KcmState {
    match cur {
        None => KcmState::Outside,
        Some((n, k)) => KcmState::Block(n@, k.deep_view()),
    }
}

/// Parse a `.kcm` file body.
///
/// Grammar (per AOSP `KeyCharacterMap`):
/// ```text
/// [NAME] key
///     label: 'x'
///     state, state: 'x' [dead]
/// ```
/// Blank lines separate blocks. `#` starts a line comment.
pub fn parse_kcm(input: &str) -> (r: Result<KcmFile, KcmError>)
    ensures
        match r {
            Ok(f) => kcm_file(input@) == Ok::<Seq<(Seq<char>, KcmKeyView)>, KcmErrorView>(f.pairs()),
            Err(e) => kcm_file(input@) == Err::<Seq<(Seq<char>, KcmKeyView)>, KcmErrorView>(e@),
        },
{
    let cs = str_chars(input);
    let ls = split_lines(cs.as_slice());
    let ghost lsv = ls.deep_view();
    let mut file: KcmFile = StrMap::new();
    let mut cur: Option<(String, KcmKey)> = None;
    let n = ls.len();
    assert(lsv.skip(0) =~= lsv);
    for i in 0..n
        invariant
            n == ls.len(),
            lsv == ls.deep_view(),
            kcm_file(input@) == kcm_run(file.pairs(), kcm_state_view(cur), lsv.skip(i as int)),
    {
        let ghost rest = lsv.skip(i as int);
        assert(rest[0] == lsv[i as int]);
        assert(rest.drop_first() =~= lsv.skip(i + 1));
        assert(ls[i as int]@ == lsv[i as int]);
        let b = before_char(ls[i].as_slice(), '#');
        let t = trim_chars(b.as_slice());
        let is_header = t.len() > 0 && t[0] == '[';
        let mut name_of_header = String::new();
        if is_header {
            let t1 = slice_chars(t.as_slice(), 1, t.len());
            assert(t1@ =~= t@.drop_first());
            let nb = before_char(t1.as_slice(), ']');
            let nm = trim_chars(nb.as_slice());
            name_of_header = chars_to_string(nm.as_slice());
        }
        assert(is_header ==> name_of_header@ == header_name(t@));
        let taken = cur;
        cur = None;
        match taken {
            None => {
                if t.len() == 0 {
                } else if !is_header {
                    return Err(KcmError::ExpectedHeader { line: chars_to_string(t.as_slice()) });
                } else {
                    let k = KcmKey::default();
                    cur = Some((name_of_header, k));
                }
            },
            Some((name, mut key)) => {
                if t.len() == 0 {
                    let _ = file.insert(name, key);
                } else if is_header {
                    let _ = file.insert(name, key);
                    let k = KcmKey::default();
                    cur = Some((name_of_header, k));
                } else {
                    match kcm_body_line(&name, &mut key, t.as_slice()) {
                        Ok(()) => {
                            cur = Some((name, key));
                        },
                        Err(e) => {
                            return Err(e);
                        },
                    }
                }
            },
        }
    }
    match cur {
        None => {},
        Some((name, key)) => {
            let _ = file.insert(name, key);
        },
    }
    assert(lsv.skip(n as int) =~= Seq::<Seq<char>>::empty());
    Ok(file)
}

/// The pieces of `s` between the separators `c` (as `str::split` gives them).
pub open spec fn split_on(s: Seq<char>, c: char) -> Seq<Seq<char>>
    decreases s.len(),
{
    if count_before(s, c) >= s.len() {
        seq![s]
    } else {
        seq![s.take(count_before(s, c) as int)] + split_on(s.skip(count_before(s, c) + 1 as int), c)
    }
}

/// Whether one of the comma-separated names of a modifier state, trimmed, is `w`.
pub open spec fn state_has(state: Seq<char>, w: Seq<char>) -> bool {
    exists|i: int| 0 <= i < split_on(state, ',').len() && trim(#[trigger] split_on(state, ',')[i]) == w
}

/// The W3C modifiers of a `.kcm` modifier state: `Shift` when it names `shift` or `capslock`,
/// then `Alt` when it names `alt`.
pub open spec fn modifiers_for(state: Seq<char>) -> Seq<Seq<char>> {
    (if state_has(state, "shift"@) || state_has(state, "capslock"@) {
        seq!["Shift"@]
    } else {
        seq![]
    }) + (if state_has(state, "alt"@) {
        seq!["Alt"@]
    } else {
        seq![]
    })
}

/// The W3C modifier names for a `.kcm` modifier state such as `shift, capslock`.
pub fn modifiers_for_state(state: &str) -> (mods: Vec<String>)
    ensures
        mods.deep_view() == modifiers_for(state@),
{
    let s = str_chars(state);
    let ghost sv = s@;
    let mut shift = false;
    let mut alt = false;
    let mut i: usize = 0;
    let ghost mut done: Seq<Seq<char>> = seq![];
    let mut finished = false;
    assert(sv.skip(0) =~= sv);
    assert(done + split_on(sv.skip(0), ',') =~= split_on(sv, ','));
    while !finished
        invariant
            sv == s@,
            sv == state@,
            i <= sv.len(),
            finished ==> done == split_on(sv, ','),
            !finished ==> done + split_on(sv.skip(i as int), ',') == split_on(sv, ','),
            shift <==> exists|j: int| 0 <= j < done.len() && (trim(#[trigger] done[j]) == "shift"@ || trim(done[j]) == "capslock"@),
            alt <==> exists|j: int| 0 <= j < done.len() && trim(#[trigger] done[j]) == "alt"@,
        decreases sv.len() - i + (if finished { 0int } else { 1int }),
    {
        let k = index_of_from(s.as_slice(), ',', i);
        let piece = slice_chars(s.as_slice(), i, k);
        let ghost t = sv.skip(i as int);
        assert(piece@ =~= t.take((k - i) as int));
        let p = trim_chars(piece.as_slice());
        let is_shift = chars_eq_str(p.as_slice(), "shift") || chars_eq_str(p.as_slice(), "capslock");
        let is_alt = chars_eq_str(p.as_slice(), "alt");
        let ghost prev = done;
        proof {
            done = done.push(piece@);
        }
        assert forall|j: int| 0 <= j < prev.len() implies #[trigger] done[j] == prev[j] by {}
        assert(done[prev.len() as int] == piece@);
        if is_shift {
            shift = true;
        }
        if is_alt {
            alt = true;
        }
        assert(trim(done[prev.len() as int]) == p@);
        assert(shift <==> exists|j: int| 0 <= j < done.len() && (trim(#[trigger] done[j]) == "shift"@ || trim(done[j]) == "capslock"@)) by {
            if exists|j: int| 0 <= j < done.len() && (trim(#[trigger] done[j]) == "shift"@ || trim(done[j]) == "capslock"@) {
                let j = choose|j: int| 0 <= j < done.len() && (trim(#[trigger] done[j]) == "shift"@ || trim(done[j]) == "capslock"@);
                if j < prev.len() {
                    assert(prev[j] == done[j]);
                }
            }
            if shift && !is_shift {
                let j = choose|j: int| 0 <= j < prev.len() && (trim(#[trigger] prev[j]) == "shift"@ || trim(prev[j]) == "capslock"@);
                assert(prev[j] == done[j]);
            }
        }
        assert(alt <==> exists|j: int| 0 <= j < done.len() && trim(#[trigger] done[j]) == "alt"@) by {
            if exists|j: int| 0 <= j < done.len() && trim(#[trigger] done[j]) == "alt"@ {
                let j = choose|j: int| 0 <= j < done.len() && trim(#[trigger] done[j]) == "alt"@;
                if j < prev.len() {
                    assert(prev[j] == done[j]);
                }
            }
            if alt && !is_alt {
                let j = choose|j: int| 0 <= j < prev.len() && trim(#[trigger] prev[j]) == "alt"@;
                assert(prev[j] == done[j]);
            }
        }
        if k >= s.len() {
            assert(split_on(t, ',') == seq![t]);
            assert(piece@ =~= t);
            assert(done =~= prev + split_on(t, ','));
            finished = true;
        } else {
            assert(t.skip((k - i) + 1) =~= sv.skip(k + 1));
            assert(split_on(t, ',') == seq![piece@] + split_on(sv.skip(k + 1), ','));
            assert(done + split_on(sv.skip(k + 1), ',') =~= prev + split_on(t, ','));
            i = k + 1;
        }
    }
    assert(done == split_on(sv, ','));
    let mut mods: Vec<String> = Vec::new();
    if shift {
        mods.push("Shift".to_owned());
    }
    if alt {
        mods.push("Alt".to_owned());
    }
    assert(state_has(sv, "shift"@) || state_has(sv, "capslock"@) <==> shift) by {
        if shift {
            let j = choose|j: int| 0 <= j < done.len() && (trim(#[trigger] done[j]) == "shift"@ || trim(done[j]) == "capslock"@);
            assert(trim(split_on(sv, ',')[j]) == "shift"@ || trim(split_on(sv, ',')[j]) == "capslock"@);
        }
    }
    assert(state_has(sv, "alt"@) <==> alt) by {
        if alt {
            let j = choose|j: int| 0 <= j < done.len() && trim(#[trigger] done[j]) == "alt"@;
            assert(trim(split_on(sv, ',')[j]) == "alt"@);
        }
    }
    assert(mods.deep_view() =~= modifiers_for(sv));
    mods
}

/// The Android name that the `.kl` entries give a Linux keycode: the last entry for it wins.
pub open spec fn kl_name(kl: Seq<(u32, Seq<char>)>, code: u32) -> Option<Seq<char>>
    decreases kl.len(),
{
    if kl.len() == 0 {
        None
    } else if kl.last().0 == code {
        Some(kl.last().1)
    } else {
        kl_name(kl.drop_last(), code)
    }
}

/// The `.kcm` rows of the key with this Linux keycode (none when either file lacks it).
pub open spec fn key_rows(
    kl: Seq<(u32, Seq<char>)>,
    kcm: Seq<(Seq<char>, KcmKeyView)>,
    linux: u32,
) -> Seq<(Seq<char>, KcmMappingView)> {
    match kl_name(kl, linux) {
        None => seq![],
        Some(n) => match assoc_get(kcm, n) {
            None => seq![],
            Some(k) => k.rows,
        },
    }
}

/// The state of the reverse mapping: targets with their alternatives, and the dead keys found
/// (output, W3C code, modifiers).
pub type Reverse = (Seq<(Seq<char>, Seq<KeystrokeView>)>, Seq<(Seq<char>, Seq<char>, Seq<Seq<char>>)>);

/// One `.kcm` row of the key `code`: a non-empty output gets the single keystroke of the key
/// under the row's modifiers; a dead output is also recorded as a dead key.
pub open spec fn row_step(acc: Reverse, code: Seq<char>, row: (Seq<char>, KcmMappingView)) -> Reverse {
    let out = row.1.output;
    if out.len() == 0 {
        acc
    } else {
        let mods = modifiers_for(row.0);
        (
            assoc_append(acc.0, out, single_view(code, mods)),
            if row.1.dead {
                acc.1.push((out, code, mods))
            } else {
                acc.1
            },
        )
    }
}

pub open spec fn rows_fold(acc: Reverse, code: Seq<char>, rows: Seq<(Seq<char>, KcmMappingView)>) -> Reverse
    decreases rows.len(),
{
    if rows.len() == 0 {
        acc
    } else {
        row_step(rows_fold(acc, code, rows.drop_last()), code, rows.last())
    }
}

/// The rows of every W3C key of `t`, in table order.
pub open spec fn table_fold(
    kl: Seq<(u32, Seq<char>)>,
    kcm: Seq<(Seq<char>, KcmKeyView)>,
    t: Seq<W3cKeyView>,
) -> Reverse
    decreases t.len(),
{
    if t.len() == 0 {
        (seq![], seq![])
    } else {
        rows_fold(table_fold(kl, kcm, t.drop_last()), t.last().code, key_rows(kl, kcm, t.last().linux_keycode))
    }
}

/// The base keys among the alternatives of `ch`: single presses without modifiers, when `ch` is
/// one character; (character, W3C code).
pub open spec fn alt_bases(ch: Seq<char>, alts: Seq<KeystrokeView>) -> Seq<(Seq<char>, Seq<char>)>
    decreases alts.len(),
{
    if alts.len() == 0 {
        seq![]
    } else {
        let ks = alts.last();
        if ks.sequence.len() == 1 && ks.sequence[0].modifiers.len() == 0 && ch.len() == 1 {
            alt_bases(ch, alts.drop_last()).push((ch, ks.sequence[0].key))
        } else {
            alt_bases(ch, alts.drop_last())
        }
    }
}

pub open spec fn base_keys(ms: Seq<(Seq<char>, Seq<KeystrokeView>)>) -> Seq<(Seq<char>, Seq<char>)>
    decreases ms.len(),
{
    if ms.len() == 0 {
        seq![]
    } else {
        base_keys(ms.drop_last()) + alt_bases(ms.last().0, ms.last().1)
    }
}

/// The dead key `d` composed with every base key of another key: the dead output followed by
/// the base character is produced by the dead key and then the base key.
pub open spec fn compose_one(
    ms: Seq<(Seq<char>, Seq<KeystrokeView>)>,
    d: (Seq<char>, Seq<char>, Seq<Seq<char>>),
    bases: Seq<(Seq<char>, Seq<char>)>,
) -> Seq<(Seq<char>, Seq<KeystrokeView>)>
    decreases bases.len(),
{
    if bases.len() == 0 {
        ms
    } else {
        let m = compose_one(ms, d, bases.drop_last());
        let b = bases.last();
        if b.1 == d.1 {
            m
        } else {
            assoc_append(m, d.0 + b.0, dead_key_view(d.1, d.2, b.1, seq![]))
        }
    }
}

pub open spec fn compose_all(
    ms: Seq<(Seq<char>, Seq<KeystrokeView>)>,
    deads: Seq<(Seq<char>, Seq<char>, Seq<Seq<char>>)>,
    bases: Seq<(Seq<char>, Seq<char>)>,
) -> Seq<(Seq<char>, Seq<KeystrokeView>)>
    decreases deads.len(),
{
    if deads.len() == 0 {
        ms
    } else {
        compose_one(compose_all(ms, deads.drop_last(), bases), deads.last(), bases)
    }
}

/// The mappings of the Android layout: every key row reversed, then every dead key composed
/// with the base keys found in that first stage.
pub open spec fn android_mappings(
    kl: Seq<(u32, Seq<char>)>,
    kcm: Seq<(Seq<char>, KcmKeyView)>,
) -> Seq<(Seq<char>, Seq<KeystrokeView>)> {
    let st = table_fold(kl, kcm, w3c_table());
    compose_all(st.0, st.1, base_keys(st.0))
}

/// The Android name of a Linux keycode per the `.kl` entries.
fn kl_name_of(kl: &Vec<KlEntry>, code: u32) -> (r: Option<&String>)
    ensures
        match r {
            Some(n) => kl_name(kl.deep_view(), code) == Some(n@),
            None => kl_name(kl.deep_view(), code) is None,
        },
{
    let mut found: Option<&String> = None;
    let ghost kv = kl.deep_view();
    assert(kv.take(0) =~= Seq::<(u32, Seq<char>)>::empty());
    for i in 0..kl.len()
        invariant
            kv == kl.deep_view(),
            match found {
                Some(n) => kl_name(kv.take(i as int), code) == Some(n@),
                None => kl_name(kv.take(i as int), code) is None,
            },
    {
        assert(kv.take(i + 1).drop_last() =~= kv.take(i as int));
        assert(kv.take(i + 1).last() == kv[i as int]);
        assert(kv[i as int] == kl[i as int].deep_view());
        if kl[i].linux_keycode == code {
            found = Some(&kl[i].android_name);
        }
    }
    assert(kv.take(kl.len() as int) =~= kv);
    found
}

/// The rows of one W3C key reversed into the mappings.
fn add_key_rows(
    mappings: &mut StrMap<Vec<Keystroke>>,
    deads: &mut Vec<(String, String, Vec<String>)>,
    code: &str,
    key: &KcmKey,
)
    ensures
        (final(mappings).pairs(), final(deads).deep_view()) == rows_fold(
            (old(mappings).pairs(), old(deads).deep_view()),
            code@,
            key.deep_view().rows,
        ),
{
    let ghost rows = key.deep_view().rows;
    let ghost init: Reverse = (mappings.pairs(), deads.deep_view());
    let n = key.rows.len();
    assert(rows.take(0) =~= Seq::<(Seq<char>, KcmMappingView)>::empty());
    for j in 0..n
        invariant
            n == rows.len(),
            rows == key.deep_view().rows,
            (mappings.pairs(), deads.deep_view()) == rows_fold(init, code@, rows.take(j as int)),
    {
        let (state, m) = key.rows.entry_at(j);
        assert(rows.take(j + 1).drop_last() =~= rows.take(j as int));
        assert(rows.take(j + 1).last() == rows[j as int]);
        if !m.output.as_str().is_empty() {
            let mods = modifiers_for_state(state.as_str());
            if m.dead {
                let ghost prev = deads.deep_view();
                deads.push((m.output.clone(), code.to_owned(), clone_strings(&mods)));
                assert(deads.deep_view() =~= prev.push((m.output@, code@, mods.deep_view())));
            }
            let ks = Keystroke::single(code, mods);
            mappings.push_to(m.output.clone(), ks);
        }
    }
    assert(rows.take(n as int) =~= rows);
}

/// The first stage: the rows of every W3C key, in table order.
fn reverse_rows(kl: &Vec<KlEntry>, kcm: &KcmFile) -> (r: (StrMap<Vec<Keystroke>>, Vec<(String, String, Vec<String>)>))
    ensures
        (r.0.pairs(), r.1.deep_view()) == table_fold(kl.deep_view(), kcm.pairs(), w3c_table()),
{
    let keys = w3c_keys();
    let ghost t = w3c_table();
    let mut mappings: StrMap<Vec<Keystroke>> = StrMap::new();
    let mut deads: Vec<(String, String, Vec<String>)> = Vec::new();
    assert(t.take(0) =~= Seq::<W3cKeyView>::empty());
    assert(deads.deep_view() =~= Seq::<(Seq<char>, Seq<char>, Seq<Seq<char>>)>::empty());
    for i in 0..keys.len()
        invariant
            keys.deep_view() == t,
            t == w3c_table(),
            (mappings.pairs(), deads.deep_view()) == table_fold(kl.deep_view(), kcm.pairs(), t.take(i as int)),
    {
        assert(t.take(i + 1).drop_last() =~= t.take(i as int));
        assert(t.take(i + 1).last() == t[i as int]);
        assert(keys[i as int].deep_view() == t[i as int]);
        let k = keys[i];
        match kl_name_of(kl, k.linux_keycode) {
            None => {
                assert(key_rows(kl.deep_view(), kcm.pairs(), k.linux_keycode) =~= Seq::<(Seq<char>, KcmMappingView)>::empty());
            },
            Some(name) => {
                match kcm.get(name.as_str()) {
                    None => {
                        assert(key_rows(kl.deep_view(), kcm.pairs(), k.linux_keycode) =~= Seq::<(Seq<char>, KcmMappingView)>::empty());
                    },
                    Some(key) => {
                        add_key_rows(&mut mappings, &mut deads, k.code, key);
                    },
                }
            },
        }
    }
    assert(t.take(keys.len() as int) =~= t);
    (mappings, deads)
}

/// The base keys of the first-stage mappings.
fn collect_bases(mappings: &StrMap<Vec<Keystroke>>) -> (r: Vec<(String, String)>)
    ensures
        r.deep_view() == base_keys(mappings.pairs()),
{
    let ghost ms = mappings.pairs();
    let mut r: Vec<(String, String)> = Vec::new();
    assert(ms.take(0) =~= Seq::<(Seq<char>, Seq<KeystrokeView>)>::empty());
    assert(r.deep_view() =~= Seq::<(Seq<char>, Seq<char>)>::empty());
    let n = mappings.len();
    for i in 0..n
        invariant
            n == ms.len(),
            ms == mappings.pairs(),
            r.deep_view() == base_keys(ms.take(i as int)),
    {
        let (ch, alts) = mappings.entry_at(i);
        let ghost av = alts.deep_view();
        let ghost before_entry = r.deep_view();
        let one_char = ch.as_str().unicode_len() == 1;
        assert(av.take(0) =~= Seq::<KeystrokeView>::empty());
        assert(before_entry + alt_bases(ch@, av.take(0)) =~= before_entry);
        for j in 0..alts.len()
            invariant
                av == alts.deep_view(),
                one_char == (ch@.len() == 1),
                r.deep_view() == before_entry + alt_bases(ch@, av.take(j as int)),
        {
            assert(av.take(j + 1).drop_last() =~= av.take(j as int));
            assert(av.take(j + 1).last() == av[j as int]);
            assert(av[j as int] == alts[j as int].deep_view());
            let ks = &alts[j];
            if ks.sequence.len() == 1 && ks.sequence[0].modifiers.len() == 0 && one_char {
                let ghost prev = r.deep_view();
                assert(ks.sequence.deep_view()[0] == ks.sequence[0].deep_view());
                r.push((ch.clone(), ks.sequence[0].key.clone()));
                assert(r.deep_view() =~= prev.push((ch@, ks.sequence[0].key@)));
                assert(before_entry + alt_bases(ch@, av.take(j + 1)) =~= prev.push((ch@, ks.sequence[0].key@)));
            } else {
                assert(ks.sequence.len() == 1 ==> ks.sequence.deep_view()[0] == ks.sequence[0].deep_view());
            }
        }
        assert(av.take(alts.len() as int) =~= av);
        assert(ms.take(i + 1).drop_last() =~= ms.take(i as int));
        assert(ms.take(i + 1).last() == ms[i as int]);
    }
    assert(ms.take(ms.len() as int) =~= ms);
    r
}

/// One dead key composed with every base key of another key.
fn compose_dead(
    mappings: &mut StrMap<Vec<Keystroke>>,
    d: &(String, String, Vec<String>),
    bases: &Vec<(String, String)>,
)
    ensures
        final(mappings).pairs() == compose_one(old(mappings).pairs(), d.deep_view(), bases.deep_view()),
{
    let ghost bv = bases.deep_view();
    let ghost init = mappings.pairs();
    assert(bv.take(0) =~= Seq::<(Seq<char>, Seq<char>)>::empty());
    for k in 0..bases.len()
        invariant
            bv == bases.deep_view(),
            mappings.pairs() == compose_one(init, d.deep_view(), bv.take(k as int)),
    {
        assert(bv.take(k + 1).drop_last() =~= bv.take(k as int));
        assert(bv.take(k + 1).last() == bv[k as int]);
        assert(bv[k as int] == bases[k as int].deep_view());
        let b = &bases[k];
        if b.1 != d.1 {
            let mut composed = d.0.clone();
            composed.append(b.0.as_str());
            let no_mods: Vec<String> = Vec::new();
            assert(no_mods.deep_view() =~= Seq::<Seq<char>>::empty());
            let ks = Keystroke::dead_key(d.1.as_str(), clone_strings(&d.2), b.1.as_str(), no_mods);
            assert(ks.deep_view().sequence =~= dead_key_view(d.1@, d.2.deep_view(), b.1@, seq![]).sequence);
            mappings.push_to(composed, ks);
        }
    }
    assert(bv.take(bases.len() as int) =~= bv);
}

/// Build the layout from parsed `.kl` and `.kcm` data, stamped with the extraction time given.
///
/// Every W3C key whose Linux keycode appears in the `.kl` file, and whose Android name has a
/// `.kcm` block, contributes one single-press alternative per non-empty row, under the modifiers
/// of the row's state. Each dead row is then composed with every single-character, unmodified
/// base key of another key into a two-press alternative for the combined text.
pub fn build_layout_at(kl: &Vec<KlEntry>, kcm: &KcmFile, extracted_on: String) -> (l: LayoutFile)
    ensures
        l.mappings.pairs() == android_mappings(kl.deep_view(), kcm.pairs()),
        l@.metadata.platform == "android"@,
        l@.metadata.layout_name == "android"@,
        l@.metadata.layout_variant is None,
        l@.metadata.display_name is None,
        l@.metadata.extracted_on == extracted_on@,
{
    let (mut mappings, deads) = reverse_rows(kl, kcm);
    let ghost st = table_fold(kl.deep_view(), kcm.pairs(), w3c_table());
    let bases = collect_bases(&mappings);
    let ghost ms0 = mappings.pairs();
    let ghost dv = deads.deep_view();
    assert(dv.take(0) =~= Seq::<(Seq<char>, Seq<char>, Seq<Seq<char>>)>::empty());
    for i in 0..deads.len()
        invariant
            dv == deads.deep_view(),
            bases.deep_view() == base_keys(ms0),
            mappings.pairs() == compose_all(ms0, dv.take(i as int), base_keys(ms0)),
    {
        assert(dv.take(i + 1).drop_last() =~= dv.take(i as int));
        assert(dv.take(i + 1).last() == dv[i as int]);
        assert(dv[i as int] == deads[i as int].deep_view());
        compose_dead(&mut mappings, &deads[i], &bases);
    }
    assert(dv.take(deads.len() as int) =~= dv);
    LayoutFile {
        metadata: LayoutMetadata {
            platform: "android".to_owned(),
            layout_name: "android".to_owned(),
            layout_variant: None,
            display_name: None,
            extracted_on,
        },
        mappings,
    }
}

/// Build the layout from parsed `.kl` and `.kcm` data, stamped with the current time (see
/// `build_layout_at`). It always succeeds.
pub fn build_layout(kl: &Vec<KlEntry>, kcm: &KcmFile) -> (r: Result<LayoutFile, KeymapError>)
    ensures
        r is Ok,
        r matches Ok(l) && l.mappings.pairs() == android_mappings(kl.deep_view(), kcm.pairs())
            && l@.metadata.platform == "android"@ && l@.metadata.layout_name == "android"@
            && l@.metadata.layout_variant is None && l@.metadata.display_name is None
            && exists|secs: nat| iso8601_of(secs, l@.metadata.extracted_on),
{
    let now = now_iso8601();
    Ok(build_layout_at(kl, kcm, now))
}

proof fn lemma_modifiers_for_known(state: Seq<char>)
    ensures
        all_known(modifiers_for(state)),
{
    let a: Seq<Seq<char>> = if state_has(state, "shift"@) || state_has(state, "capslock"@) {
        seq!["Shift"@]
    } else {
        seq![]
    };
    let b: Seq<Seq<char>> = if state_has(state, "alt"@) {
        seq!["Alt"@]
    } else {
        seq![]
    };
    assert forall|i: int| 0 <= i < (a + b).len() implies is_known_modifier(#[trigger] (a + b)[i]) by {
        if i < a.len() {
            assert((a + b)[i] == "Shift"@);
        } else {
            assert((a + b)[i] == "Alt"@);
        }
    }
}

/// The reverse mapping so far has valid mappings under distinct targets, and its dead keys
/// carry W3C modifiers.
pub open spec fn reverse_ok(acc: Reverse) -> bool {
    &&& mappings_ok(acc.0)
    &&& keys_distinct(acc.0)
    &&& forall|i: int| 0 <= i < acc.1.len() ==> all_known((#[trigger] acc.1[i]).2)
}

proof fn lemma_rows_fold_ok(acc: Reverse, code: Seq<char>, rows: Seq<(Seq<char>, KcmMappingView)>)
    requires
        reverse_ok(acc),
    ensures
        reverse_ok(rows_fold(acc, code, rows)),
    decreases rows.len(),
{
    if rows.len() > 0 {
        lemma_rows_fold_ok(acc, code, rows.drop_last());
        let a = rows_fold(acc, code, rows.drop_last());
        let row = rows.last();
        if row.1.output.len() > 0 {
            let mods = modifiers_for(row.0);
            lemma_modifiers_for_known(row.0);
            lemma_single_view_valid(code, mods);
            lemma_append_ok(a.0, row.1.output, single_view(code, mods));
            let r = row_step(a, code, row);
            assert forall|i: int| 0 <= i < r.1.len() implies all_known((#[trigger] r.1[i]).2) by {
                if i < a.1.len() {
                    assert(r.1[i] == a.1[i]);
                }
            }
        }
    }
}

proof fn lemma_table_fold_ok(kl: Seq<(u32, Seq<char>)>, kcm: Seq<(Seq<char>, KcmKeyView)>, t: Seq<W3cKeyView>)
    ensures
        reverse_ok(table_fold(kl, kcm, t)),
    decreases t.len(),
{
    if t.len() > 0 {
        lemma_table_fold_ok(kl, kcm, t.drop_last());
        lemma_rows_fold_ok(table_fold(kl, kcm, t.drop_last()), t.last().code, key_rows(kl, kcm, t.last().linux_keycode));
    } else {
        assert(keys_distinct(Seq::<(Seq<char>, Seq<KeystrokeView>)>::empty()));
    }
}

proof fn lemma_base_keys_single_char(ms: Seq<(Seq<char>, Seq<KeystrokeView>)>)
    ensures
        forall|i: int| 0 <= i < base_keys(ms).len() ==> (#[trigger] base_keys(ms)[i]).0.len() == 1,
    decreases ms.len(),
{
    if ms.len() > 0 {
        lemma_base_keys_single_char(ms.drop_last());
        lemma_alt_bases_single_char(ms.last().0, ms.last().1);
        let p = base_keys(ms.drop_last());
        let q = alt_bases(ms.last().0, ms.last().1);
        assert forall|i: int| 0 <= i < (p + q).len() implies (#[trigger] (p + q)[i]).0.len() == 1 by {
            if i < p.len() {
                assert((p + q)[i] == p[i]);
            } else {
                assert((p + q)[i] == q[i - p.len()]);
            }
        }
    }
}

proof fn lemma_alt_bases_single_char(ch: Seq<char>, alts: Seq<KeystrokeView>)
    ensures
        forall|i: int| 0 <= i < alt_bases(ch, alts).len() ==> (#[trigger] alt_bases(ch, alts)[i]).0.len() == 1,
    decreases alts.len(),
{
    if alts.len() > 0 {
        lemma_alt_bases_single_char(ch, alts.drop_last());
        let p = alt_bases(ch, alts.drop_last());
        let ks = alts.last();
        if ks.sequence.len() == 1 && ks.sequence[0].modifiers.len() == 0 && ch.len() == 1 {
            let q = p.push((ch, ks.sequence[0].key));
            assert forall|i: int| 0 <= i < q.len() implies (#[trigger] q[i]).0.len() == 1 by {
                if i < p.len() {
                    assert(q[i] == p[i]);
                }
            }
        }
    }
}

proof fn lemma_compose_one_ok(
    ms: Seq<(Seq<char>, Seq<KeystrokeView>)>,
    d: (Seq<char>, Seq<char>, Seq<Seq<char>>),
    bases: Seq<(Seq<char>, Seq<char>)>,
)
    requires
        mappings_ok(ms),
        keys_distinct(ms),
        all_known(d.2),
        forall|i: int| 0 <= i < bases.len() ==> (#[trigger] bases[i]).0.len() == 1,
    ensures
        mappings_ok(compose_one(ms, d, bases)),
        keys_distinct(compose_one(ms, d, bases)),
    decreases bases.len(),
{
    if bases.len() > 0 {
        lemma_compose_one_ok(ms, d, bases.drop_last());
        let b = bases.last();
        if b.1 != d.1 {
            lemma_dead_key_view_valid(d.1, d.2, b.1, seq![]);
            lemma_append_ok(compose_one(ms, d, bases.drop_last()), d.0 + b.0, dead_key_view(d.1, d.2, b.1, seq![]));
        }
    }
}

proof fn lemma_compose_all_ok(
    ms: Seq<(Seq<char>, Seq<KeystrokeView>)>,
    deads: Seq<(Seq<char>, Seq<char>, Seq<Seq<char>>)>,
    bases: Seq<(Seq<char>, Seq<char>)>,
)
    requires
        mappings_ok(ms),
        keys_distinct(ms),
        forall|i: int| 0 <= i < deads.len() ==> all_known((#[trigger] deads[i]).2),
        forall|i: int| 0 <= i < bases.len() ==> (#[trigger] bases[i]).0.len() == 1,
    ensures
        mappings_ok(compose_all(ms, deads, bases)),
        keys_distinct(compose_all(ms, deads, bases)),
    decreases deads.len(),
{
    if deads.len() > 0 {
        lemma_compose_all_ok(ms, deads.drop_last(), bases);
        assert(all_known(deads[deads.len() - 1].2));
        lemma_compose_one_ok(compose_all(ms, deads.drop_last(), bases), deads.last(), bases);
    }
}

/// The layout built from any `.kl` and `.kcm` data passes layout validation (given a non-empty
/// extraction time): every target and alternatives list is non-empty and every modifier is a
/// W3C modifier.
pub proof fn lemma_android_layout_valid(
    kl: Seq<(u32, Seq<char>)>,
    kcm: Seq<(Seq<char>, KcmKeyView)>,
    extracted_on: Seq<char>,
)
    requires
        extracted_on.len() > 0,
    ensures
        layout_valid(
            LayoutFileView {
                metadata: LayoutMetadataView {
                    platform: "android"@,
                    layout_name: "android"@,
                    layout_variant: None,
                    display_name: None,
                    extracted_on,
                },
                mappings: android_mappings(kl, kcm),
            },
        ),
{
    reveal_strlit("android");
    let st = table_fold(kl, kcm, w3c_table());
    lemma_table_fold_ok(kl, kcm, w3c_table());
    lemma_base_keys_single_char(st.0);
    lemma_compose_all_ok(st.0, st.1, base_keys(st.0));
    lemma_mappings_ok_no_error(android_mappings(kl, kcm));
}

proof fn lemma_row_step_keeps(acc: Reverse, code: Seq<char>, row: (Seq<char>, KcmMappingView), target: Seq<char>, ks: KeystrokeView)
    requires
        keys_distinct(acc.0),
        lists(acc.0, target, ks),
    ensures
        lists(row_step(acc, code, row).0, target, ks),
{
    if row.1.output.len() > 0 {
        lemma_append_lists(acc.0, row.1.output, single_view(code, modifiers_for(row.0)), target, ks);
    }
}

proof fn lemma_rows_fold_keeps(
    acc: Reverse,
    code: Seq<char>,
    rows: Seq<(Seq<char>, KcmMappingView)>,
    target: Seq<char>,
    ks: KeystrokeView,
)
    requires
        reverse_ok(acc),
        lists(acc.0, target, ks),
    ensures
        lists(rows_fold(acc, code, rows).0, target, ks),
    decreases rows.len(),
{
    if rows.len() > 0 {
        lemma_rows_fold_keeps(acc, code, rows.drop_last(), target, ks);
        lemma_rows_fold_ok(acc, code, rows.drop_last());
        lemma_row_step_keeps(rows_fold(acc, code, rows.drop_last()), code, rows.last(), target, ks);
    }
}

proof fn lemma_rows_fold_lists(acc: Reverse, code: Seq<char>, rows: Seq<(Seq<char>, KcmMappingView)>, j: int)
    requires
        reverse_ok(acc),
        0 <= j < rows.len(),
        rows[j].1.output.len() > 0,
    ensures
        lists(rows_fold(acc, code, rows).0, rows[j].1.output, single_view(code, modifiers_for(rows[j].0))),
    decreases rows.len(),
{
    let pre = rows.drop_last();
    lemma_rows_fold_ok(acc, code, pre);
    let a = rows_fold(acc, code, pre);
    let ks = single_view(code, modifiers_for(rows[j].0));
    if j == rows.len() - 1 {
        lemma_append_lists(a.0, rows[j].1.output, ks, rows[j].1.output, ks);
    } else {
        assert(pre[j] == rows[j]);
        lemma_rows_fold_lists(acc, code, pre, j);
        lemma_row_step_keeps(a, code, rows.last(), rows[j].1.output, ks);
    }
}

proof fn lemma_table_fold_lists(
    kl: Seq<(u32, Seq<char>)>,
    kcm: Seq<(Seq<char>, KcmKeyView)>,
    t: Seq<W3cKeyView>,
    i: int,
    j: int,
)
    requires
        0 <= i < t.len(),
        0 <= j < key_rows(kl, kcm, t[i].linux_keycode).len(),
        key_rows(kl, kcm, t[i].linux_keycode)[j].1.output.len() > 0,
    ensures
        lists(
            table_fold(kl, kcm, t).0,
            key_rows(kl, kcm, t[i].linux_keycode)[j].1.output,
            single_view(t[i].code, modifiers_for(key_rows(kl, kcm, t[i].linux_keycode)[j].0)),
        ),
    decreases t.len(),
{
    let pre = t.drop_last();
    let row = key_rows(kl, kcm, t[i].linux_keycode)[j];
    let ks = single_view(t[i].code, modifiers_for(row.0));
    lemma_table_fold_ok(kl, kcm, pre);
    if i == t.len() - 1 {
        lemma_rows_fold_lists(table_fold(kl, kcm, pre), t.last().code, key_rows(kl, kcm, t.last().linux_keycode), j);
    } else {
        assert(pre[i] == t[i]);
        lemma_table_fold_lists(kl, kcm, pre, i, j);
        lemma_rows_fold_keeps(table_fold(kl, kcm, pre), t.last().code, key_rows(kl, kcm, t.last().linux_keycode), row.1.output, ks);
    }
}

proof fn lemma_compose_one_keeps(
    ms: Seq<(Seq<char>, Seq<KeystrokeView>)>,
    d: (Seq<char>, Seq<char>, Seq<Seq<char>>),
    bases: Seq<(Seq<char>, Seq<char>)>,
    target: Seq<char>,
    ks: KeystrokeView,
)
    requires
        keys_distinct(ms),
        lists(ms, target, ks),
    ensures
        keys_distinct(compose_one(ms, d, bases)),
        lists(compose_one(ms, d, bases), target, ks),
    decreases bases.len(),
{
    if bases.len() > 0 {
        lemma_compose_one_keeps(ms, d, bases.drop_last(), target, ks);
        let b = bases.last();
        if b.1 != d.1 {
            lemma_append_lists(compose_one(ms, d, bases.drop_last()), d.0 + b.0, dead_key_view(d.1, d.2, b.1, seq![]), target, ks);
        }
    }
}

proof fn lemma_compose_all_keeps(
    ms: Seq<(Seq<char>, Seq<KeystrokeView>)>,
    deads: Seq<(Seq<char>, Seq<char>, Seq<Seq<char>>)>,
    bases: Seq<(Seq<char>, Seq<char>)>,
    target: Seq<char>,
    ks: KeystrokeView,
)
    requires
        keys_distinct(ms),
        lists(ms, target, ks),
    ensures
        keys_distinct(compose_all(ms, deads, bases)),
        lists(compose_all(ms, deads, bases), target, ks),
    decreases deads.len(),
{
    if deads.len() > 0 {
        lemma_compose_all_keeps(ms, deads.drop_last(), bases, target, ks);
        lemma_compose_one_keeps(compose_all(ms, deads.drop_last(), bases), deads.last(), bases, target, ks);
    }
}

/// Every non-empty output of a `.kcm` row, of a W3C key whose Linux keycode the `.kl` file
/// names, can be looked up: the layout lists that key, under the modifiers of the row's state,
/// among the alternatives for the output.
pub proof fn lemma_android_rows_listed(kl: Seq<(u32, Seq<char>)>, kcm: Seq<(Seq<char>, KcmKeyView)>, i: int, j: int)
    requires
        0 <= i < w3c_table().len(),
        0 <= j < key_rows(kl, kcm, w3c_table()[i].linux_keycode).len(),
        key_rows(kl, kcm, w3c_table()[i].linux_keycode)[j].1.output.len() > 0,
    ensures
        lists(
            android_mappings(kl, kcm),
            key_rows(kl, kcm, w3c_table()[i].linux_keycode)[j].1.output,
            single_view(w3c_table()[i].code, modifiers_for(key_rows(kl, kcm, w3c_table()[i].linux_keycode)[j].0)),
        ),
{
    let st = table_fold(kl, kcm, w3c_table());
    let row = key_rows(kl, kcm, w3c_table()[i].linux_keycode)[j];
    lemma_table_fold_ok(kl, kcm, w3c_table());
    lemma_table_fold_lists(kl, kcm, w3c_table(), i, j);
    lemma_compose_all_keeps(st.0, st.1, base_keys(st.0), row.1.output, single_view(w3c_table()[i].code, modifiers_for(row.0)));
}

/// Row `j` of `rows`, of the key `code`, has the non-empty output `target`, and `ks` presses
/// the key under the row's modifiers.
pub open spec fn row_gives(rows: Seq<(Seq<char>, KcmMappingView)>, j: int, code: Seq<char>, target: Seq<char>, ks: KeystrokeView) -> bool {
    &&& 0 <= j < rows.len()
    &&& rows[j].1.output == target
    &&& target.len() > 0
    &&& ks == single_view(code, modifiers_for(rows[j].0))
}

/// Row `j` of `rows`, of the key `code`, is the dead key `d` (output, code, modifiers).
pub open spec fn row_dead(rows: Seq<(Seq<char>, KcmMappingView)>, j: int, code: Seq<char>, d: (Seq<char>, Seq<char>, Seq<Seq<char>>)) -> bool {
    &&& 0 <= j < rows.len()
    &&& rows[j].1.dead
    &&& rows[j].1.output.len() > 0
    &&& d == (rows[j].1.output, code, modifiers_for(rows[j].0))
}

/// Row `j` of the key at `i` in `t` gives `target` by `ks`.
pub open spec fn key_gives(
    kl: Seq<(u32, Seq<char>)>,
    kcm: Seq<(Seq<char>, KcmKeyView)>,
    t: Seq<W3cKeyView>,
    i: int,
    j: int,
    target: Seq<char>,
    ks: KeystrokeView,
) -> bool {
    0 <= i < t.len() && row_gives(key_rows(kl, kcm, t[i].linux_keycode), j, t[i].code, target, ks)
}

/// Row `j` of the key at `i` in `t` is the dead key `d`.
pub open spec fn key_dead(
    kl: Seq<(u32, Seq<char>)>,
    kcm: Seq<(Seq<char>, KcmKeyView)>,
    t: Seq<W3cKeyView>,
    i: int,
    j: int,
    d: (Seq<char>, Seq<char>, Seq<Seq<char>>),
) -> bool {
    0 <= i < t.len() && row_dead(key_rows(kl, kcm, t[i].linux_keycode), j, t[i].code, d)
}

/// Some row of some key of `t` gives `target` by `ks`.
pub open spec fn some_key_gives(
    kl: Seq<(u32, Seq<char>)>,
    kcm: Seq<(Seq<char>, KcmKeyView)>,
    t: Seq<W3cKeyView>,
    target: Seq<char>,
    ks: KeystrokeView,
) -> bool {
    exists|i: int, j: int| key_gives(kl, kcm, t, i, j, target, ks)
}

/// Some row of some key of `t` is the dead key `d`.
pub open spec fn some_key_dead(
    kl: Seq<(u32, Seq<char>)>,
    kcm: Seq<(Seq<char>, KcmKeyView)>,
    t: Seq<W3cKeyView>,
    d: (Seq<char>, Seq<char>, Seq<Seq<char>>),
) -> bool {
    exists|i: int, j: int| key_dead(kl, kcm, t, i, j, d)
}

/// What the first stage over `t` lists and records comes from the rows of the keys of `t`.
pub open spec fn first_stage_sourced(kl: Seq<(u32, Seq<char>)>, kcm: Seq<(Seq<char>, KcmKeyView)>, t: Seq<W3cKeyView>) -> bool {
    let st = table_fold(kl, kcm, t);
    &&& forall|target: Seq<char>, ks: KeystrokeView| #[trigger] lists(st.0, target, ks) ==> some_key_gives(kl, kcm, t, target, ks)
    &&& forall|p: int| 0 <= p < st.1.len() ==> some_key_dead(kl, kcm, t, #[trigger] st.1[p])
}

proof fn lemma_rows_fold_from(acc: Reverse, code: Seq<char>, rows: Seq<(Seq<char>, KcmMappingView)>, target: Seq<char>, ks: KeystrokeView)
    requires
        reverse_ok(acc),
        lists(rows_fold(acc, code, rows).0, target, ks),
    ensures
        lists(acc.0, target, ks) || exists|j: int| row_gives(rows, j, code, target, ks),
    decreases rows.len(),
{
    if rows.len() > 0 {
        let pre = rows.drop_last();
        let a = rows_fold(acc, code, pre);
        lemma_rows_fold_ok(acc, code, pre);
        let row = rows.last();
        let from_pre = if row.1.output.len() > 0 {
            lemma_append_lists(a.0, row.1.output, single_view(code, modifiers_for(row.0)), target, ks);
            lists(a.0, target, ks)
        } else {
            true
        };
        if from_pre {
            lemma_rows_fold_from(acc, code, pre, target, ks);
            if !lists(acc.0, target, ks) {
                let j = choose|j: int| row_gives(pre, j, code, target, ks);
                assert(pre[j] == rows[j]);
                assert(row_gives(rows, j, code, target, ks));
            }
        } else {
            assert(row_gives(rows, rows.len() - 1, code, target, ks));
        }
    }
}

proof fn lemma_rows_fold_deads(acc: Reverse, code: Seq<char>, rows: Seq<(Seq<char>, KcmMappingView)>, p: int)
    requires
        0 <= p < rows_fold(acc, code, rows).1.len(),
    ensures
        (p < acc.1.len() && rows_fold(acc, code, rows).1[p] == acc.1[p])
            || exists|j: int| row_dead(rows, j, code, rows_fold(acc, code, rows).1[p]),
    decreases rows.len(),
{
    if rows.len() > 0 {
        let pre = rows.drop_last();
        let a = rows_fold(acc, code, pre);
        let r = rows_fold(acc, code, rows);
        let row = rows.last();
        if p < a.1.len() {
            assert(r.1[p] == a.1[p]);
            lemma_rows_fold_deads(acc, code, pre, p);
            if !(p < acc.1.len() && a.1[p] == acc.1[p]) {
                let j = choose|j: int| row_dead(pre, j, code, a.1[p]);
                assert(pre[j] == rows[j]);
                assert(row_dead(rows, j, code, r.1[p]));
            }
        } else {
            assert(row_dead(rows, rows.len() - 1, code, r.1[p]));
        }
    }
}

proof fn lemma_first_stage_sourced(kl: Seq<(u32, Seq<char>)>, kcm: Seq<(Seq<char>, KcmKeyView)>, t: Seq<W3cKeyView>)
    ensures
        first_stage_sourced(kl, kcm, t),
    decreases t.len(),
{
    let st = table_fold(kl, kcm, t);
    if t.len() == 0 {
        assert forall|target: Seq<char>, ks: KeystrokeView| #[trigger] lists(st.0, target, ks)
            implies some_key_gives(kl, kcm, t, target, ks) by {
            assert(assoc_get(st.0, target) is None);
        }
        assert(first_stage_sourced(kl, kcm, t));
    } else {
        let pre = t.drop_last();
        let last = t.len() - 1;
        let a = table_fold(kl, kcm, pre);
        let rows = key_rows(kl, kcm, t[last].linux_keycode);
        lemma_first_stage_sourced(kl, kcm, pre);
        lemma_table_fold_ok(kl, kcm, pre);
        assert(t.last() == t[last]);
        assert forall|target: Seq<char>, ks: KeystrokeView| #[trigger] lists(st.0, target, ks)
            implies some_key_gives(kl, kcm, t, target, ks) by {
            lemma_rows_fold_from(a, t[last].code, rows, target, ks);
            if lists(a.0, target, ks) {
                let (i, j) = choose|i: int, j: int| key_gives(kl, kcm, pre, i, j, target, ks);
                assert(pre[i] == t[i]);
                assert(key_gives(kl, kcm, t, i, j, target, ks));
            } else {
                let j = choose|j: int| row_gives(rows, j, t[last].code, target, ks);
                assert(key_gives(kl, kcm, t, last, j, target, ks));
            }
        }
        assert forall|p: int| 0 <= p < st.1.len() implies some_key_dead(kl, kcm, t, #[trigger] st.1[p]) by {
            lemma_rows_fold_deads(a, t[last].code, rows, p);
            if p < a.1.len() && st.1[p] == a.1[p] {
                let (i, j) = choose|i: int, j: int| key_dead(kl, kcm, pre, i, j, a.1[p]);
                assert(pre[i] == t[i]);
                assert(key_dead(kl, kcm, t, i, j, st.1[p]));
            } else {
                let j = choose|j: int| row_dead(rows, j, t[last].code, st.1[p]);
                assert(key_dead(kl, kcm, t, last, j, st.1[p]));
            }
        }
        assert(first_stage_sourced(kl, kcm, t));
    }
}

/// `ms` has an entry whose target is `b.0`, one character, and whose alternatives include the
/// unmodified press of `b.1`.
pub open spec fn base_in(ms: Seq<(Seq<char>, Seq<KeystrokeView>)>, b: (Seq<char>, Seq<char>)) -> bool {
    exists|r: int| 0 <= r < ms.len() && ms[r].0 == b.0 && b.0.len() == 1 && (#[trigger] ms[r].1).contains(single_view(b.1, seq![]))
}

proof fn lemma_alt_bases_src(ch: Seq<char>, alts: Seq<KeystrokeView>)
    ensures
        forall|q: int| 0 <= q < alt_bases(ch, alts).len() ==> (#[trigger] alt_bases(ch, alts)[q]).0 == ch && ch.len() == 1
            && alts.contains(single_view(alt_bases(ch, alts)[q].1, seq![])),
    decreases alts.len(),
{
    if alts.len() > 0 {
        let pre = alts.drop_last();
        lemma_alt_bases_src(ch, pre);
        let p = alt_bases(ch, pre);
        let r = alt_bases(ch, alts);
        let ks = alts.last();
        assert forall|q: int| 0 <= q < r.len() implies (#[trigger] r[q]).0 == ch && ch.len() == 1
            && alts.contains(single_view(r[q].1, seq![])) by {
            if q < p.len() {
                assert(r[q] == p[q]);
                let k = choose|k: int| 0 <= k < pre.len() && pre[k] == single_view(p[q].1, seq![]);
                assert(alts[k] == pre[k]);
            } else {
                let kp = ks.sequence[0];
                assert(kp.modifiers =~= Seq::<Seq<char>>::empty());
                assert(ks.sequence =~= seq![KeyPressView { key: kp.key, modifiers: seq![] }]);
                assert(r[q] == (ch, kp.key));
                assert(alts[alts.len() - 1] == single_view(r[q].1, seq![]));
            }
        }
    }
}

proof fn lemma_base_keys_src(ms: Seq<(Seq<char>, Seq<KeystrokeView>)>)
    ensures
        forall|p: int| 0 <= p < base_keys(ms).len() ==> base_in(ms, #[trigger] base_keys(ms)[p]),
    decreases ms.len(),
{
    if ms.len() > 0 {
        let pre = ms.drop_last();
        lemma_base_keys_src(pre);
        let last = ms.len() - 1;
        lemma_alt_bases_src(ms[last].0, ms[last].1);
        let a = base_keys(pre);
        let b = alt_bases(ms[last].0, ms[last].1);
        assert forall|p: int| 0 <= p < (a + b).len() implies base_in(ms, #[trigger] (a + b)[p]) by {
            if p < a.len() {
                assert((a + b)[p] == a[p]);
                assert(base_in(pre, a[p]));
                let r = choose|r: int| 0 <= r < pre.len() && pre[r].0 == a[p].0 && a[p].0.len() == 1 && (#[trigger] pre[r].1).contains(single_view(a[p].1, seq![]));
                assert(ms[r] == pre[r]);
                assert(base_in(ms, a[p]));
            } else {
                assert((a + b)[p] == b[p - a.len()]);
                assert(b[p - a.len()].0 == ms[last].0);
                assert(base_in(ms, b[p - a.len()]));
            }
        }
    }
}

/// Base `q` of `bases` is another key than the dead key `d`, and `ks` presses `d`, then that
/// key, to type `target`.
pub open spec fn composed_from(
    d: (Seq<char>, Seq<char>, Seq<Seq<char>>),
    bases: Seq<(Seq<char>, Seq<char>)>,
    q: int,
    target: Seq<char>,
    ks: KeystrokeView,
) -> bool {
    &&& 0 <= q < bases.len()
    &&& bases[q].1 != d.1
    &&& target == d.0 + bases[q].0
    &&& ks == dead_key_view(d.1, d.2, bases[q].1, seq![])
}

proof fn lemma_compose_one_from(
    ms: Seq<(Seq<char>, Seq<KeystrokeView>)>,
    d: (Seq<char>, Seq<char>, Seq<Seq<char>>),
    bases: Seq<(Seq<char>, Seq<char>)>,
    target: Seq<char>,
    ks: KeystrokeView,
)
    requires
        keys_distinct(ms),
        lists(compose_one(ms, d, bases), target, ks),
    ensures
        keys_distinct(compose_one(ms, d, bases)),
        lists(ms, target, ks) || exists|q: int| composed_from(d, bases, q, target, ks),
    decreases bases.len(),
{
    if bases.len() > 0 {
        let pre = bases.drop_last();
        let m = compose_one(ms, d, pre);
        let b = bases.last();
        let from_pre = if b.1 != d.1 {
            lemma_compose_one_distinct(ms, d, pre);
            lemma_append_lists(m, d.0 + b.0, dead_key_view(d.1, d.2, b.1, seq![]), target, ks);
            lists(m, target, ks)
        } else {
            true
        };
        if from_pre {
            lemma_compose_one_from(ms, d, pre, target, ks);
            if !lists(ms, target, ks) {
                let q = choose|q: int| composed_from(d, pre, q, target, ks);
                assert(pre[q] == bases[q]);
                assert(composed_from(d, bases, q, target, ks));
            }
        } else {
            assert(composed_from(d, bases, bases.len() - 1, target, ks));
        }
        lemma_compose_one_distinct(ms, d, bases);
    }
}

proof fn lemma_compose_one_distinct(
    ms: Seq<(Seq<char>, Seq<KeystrokeView>)>,
    d: (Seq<char>, Seq<char>, Seq<Seq<char>>),
    bases: Seq<(Seq<char>, Seq<char>)>,
)
    requires
        keys_distinct(ms),
    ensures
        keys_distinct(compose_one(ms, d, bases)),
    decreases bases.len(),
{
    if bases.len() > 0 {
        lemma_compose_one_distinct(ms, d, bases.drop_last());
        let b = bases.last();
        if b.1 != d.1 {
            let m = compose_one(ms, d, bases.drop_last());
            lemma_append_lists(m, d.0 + b.0, dead_key_view(d.1, d.2, b.1, seq![]), d.0, dead_key_view(d.1, d.2, b.1, seq![]));
        }
    }
}

proof fn lemma_compose_all_distinct(
    ms: Seq<(Seq<char>, Seq<KeystrokeView>)>,
    deads: Seq<(Seq<char>, Seq<char>, Seq<Seq<char>>)>,
    bases: Seq<(Seq<char>, Seq<char>)>,
)
    requires
        keys_distinct(ms),
    ensures
        keys_distinct(compose_all(ms, deads, bases)),
    decreases deads.len(),
{
    if deads.len() > 0 {
        lemma_compose_all_distinct(ms, deads.drop_last(), bases);
        lemma_compose_one_distinct(compose_all(ms, deads.drop_last(), bases), deads.last(), bases);
    }
}

/// Some dead key `p` of `deads` and base `q` of `bases` give `target` by `ks`.
pub open spec fn some_composition(
    deads: Seq<(Seq<char>, Seq<char>, Seq<Seq<char>>)>,
    bases: Seq<(Seq<char>, Seq<char>)>,
    target: Seq<char>,
    ks: KeystrokeView,
) -> bool {
    exists|p: int, q: int| 0 <= p < deads.len() && composed_from(deads[p], bases, q, target, ks)
}

proof fn lemma_compose_all_from(
    ms: Seq<(Seq<char>, Seq<KeystrokeView>)>,
    deads: Seq<(Seq<char>, Seq<char>, Seq<Seq<char>>)>,
    bases: Seq<(Seq<char>, Seq<char>)>,
    target: Seq<char>,
    ks: KeystrokeView,
)
    requires
        keys_distinct(ms),
        lists(compose_all(ms, deads, bases), target, ks),
    ensures
        lists(ms, target, ks) || some_composition(deads, bases, target, ks),
    decreases deads.len(),
{
    if deads.len() > 0 {
        let pre = deads.drop_last();
        let m = compose_all(ms, pre, bases);
        lemma_compose_all_distinct(ms, pre, bases);
        lemma_compose_one_from(m, deads.last(), bases, target, ks);
        if lists(m, target, ks) {
            lemma_compose_all_from(ms, pre, bases, target, ks);
            if !lists(ms, target, ks) {
                let (p, q) = choose|p: int, q: int| 0 <= p < pre.len() && composed_from(pre[p], bases, q, target, ks);
                assert(pre[p] == deads[p]);
                assert(some_composition(deads, bases, target, ks));
            }
        } else {
            let q = choose|q: int| composed_from(deads.last(), bases, q, target, ks);
            assert(deads[deads.len() - 1] == deads.last());
            assert(some_composition(deads, bases, target, ks));
        }
    }
}

/// Row `j1` of the key at `i1` is a dead key, and row `j2` of another key, at `i2`, gives one
/// character without modifiers: `target` is the dead output followed by that character, and
/// `ks` presses the dead key under its row's modifiers, then the other key.
pub open spec fn dead_rows_give(
    kl: Seq<(u32, Seq<char>)>,
    kcm: Seq<(Seq<char>, KcmKeyView)>,
    i1: int,
    j1: int,
    i2: int,
    j2: int,
    target: Seq<char>,
    ks: KeystrokeView,
) -> bool {
    let t = w3c_table();
    let r1 = key_rows(kl, kcm, t[i1].linux_keycode);
    let r2 = key_rows(kl, kcm, t[i2].linux_keycode);
    &&& 0 <= i1 < t.len()
    &&& 0 <= i2 < t.len()
    &&& 0 <= j1 < r1.len()
    &&& 0 <= j2 < r2.len()
    &&& r1[j1].1.dead
    &&& r1[j1].1.output.len() > 0
    &&& r2[j2].1.output.len() == 1
    &&& modifiers_for(r2[j2].0).len() == 0
    &&& t[i1].code != t[i2].code
    &&& target == r1[j1].1.output + r2[j2].1.output
    &&& ks == dead_key_view(t[i1].code, modifiers_for(r1[j1].0), t[i2].code, seq![])
}

/// Every alternative the Android layout lists for a target types it: either a key pressed
/// under the modifiers of one of its `.kcm` rows whose output is the target, or a dead-key row
/// followed by another key's unmodified one-character row, whose outputs make the target.
pub proof fn lemma_android_listed_types(
    kl: Seq<(u32, Seq<char>)>,
    kcm: Seq<(Seq<char>, KcmKeyView)>,
    target: Seq<char>,
    ks: KeystrokeView,
)
    requires
        lists(android_mappings(kl, kcm), target, ks),
    ensures
        (exists|i: int, j: int| key_gives(kl, kcm, w3c_table(), i, j, target, ks))
            || (exists|i1: int, j1: int, i2: int, j2: int| dead_rows_give(kl, kcm, i1, j1, i2, j2, target, ks)),
{
    let t = w3c_table();
    let st = table_fold(kl, kcm, t);
    let bases = base_keys(st.0);
    lemma_table_fold_ok(kl, kcm, t);
    lemma_first_stage_sourced(kl, kcm, t);
    lemma_compose_all_from(st.0, st.1, bases, target, ks);
    if lists(st.0, target, ks) {
        assert(some_key_gives(kl, kcm, t, target, ks));
    } else {
        let (p, q) = choose|p: int, q: int| 0 <= p < st.1.len() && composed_from(st.1[p], bases, q, target, ks);
        let d = st.1[p];
        let b = bases[q];
        assert(some_key_dead(kl, kcm, t, d));
        let (i1, j1) = choose|i1: int, j1: int| key_dead(kl, kcm, t, i1, j1, d);
        lemma_base_keys_src(st.0);
        assert(base_in(st.0, b));
        let r = choose|r: int| 0 <= r < st.0.len() && st.0[r].0 == b.0 && b.0.len() == 1 && (#[trigger] st.0[r].1).contains(single_view(b.1, seq![]));
        lemma_key_pos(st.0, b.0);
        assert(assoc_get(st.0, b.0) == Some(st.0[r].1));
        assert(lists(st.0, b.0, single_view(b.1, seq![])));
        assert(some_key_gives(kl, kcm, t, b.0, single_view(b.1, seq![])));
        let (i2, j2) = choose|i2: int, j2: int| key_gives(kl, kcm, t, i2, j2, b.0, single_view(b.1, seq![]));
        let r2 = key_rows(kl, kcm, t[i2].linux_keycode);
        assert(single_view(t[i2].code, modifiers_for(r2[j2].0)).sequence[0] == single_view(b.1, seq![]).sequence[0]);
        assert(t[i2].code == b.1);
        assert(modifiers_for(r2[j2].0).len() == 0);
        assert(dead_rows_give(kl, kcm, i1, j1, i2, j2, target, ks));
    }
}

proof fn lemma_rows_fold_records(acc: Reverse, code: Seq<char>, rows: Seq<(Seq<char>, KcmMappingView)>, j: int)
    requires
        0 <= j < rows.len(),
        rows[j].1.dead,
        rows[j].1.output.len() > 0,
    ensures
        rows_fold(acc, code, rows).1.contains((rows[j].1.output, code, modifiers_for(rows[j].0))),
    decreases rows.len(),
{
    let pre = rows.drop_last();
    let a = rows_fold(acc, code, pre);
    let d = (rows[j].1.output, code, modifiers_for(rows[j].0));
    let r = rows_fold(acc, code, rows);
    if j == rows.len() - 1 {
        assert(r.1[r.1.len() - 1] == d);
    } else {
        assert(pre[j] == rows[j]);
        lemma_rows_fold_records(acc, code, pre, j);
        let k = choose|k: int| 0 <= k < a.1.len() && a.1[k] == d;
        assert(r.1[k] == d);
    }
}

proof fn lemma_rows_fold_keeps_deads(acc: Reverse, code: Seq<char>, rows: Seq<(Seq<char>, KcmMappingView)>, d: (Seq<char>, Seq<char>, Seq<Seq<char>>))
    requires
        acc.1.contains(d),
    ensures
        rows_fold(acc, code, rows).1.contains(d),
    decreases rows.len(),
{
    if rows.len() > 0 {
        let pre = rows.drop_last();
        lemma_rows_fold_keeps_deads(acc, code, pre, d);
        let a = rows_fold(acc, code, pre);
        let k = choose|k: int| 0 <= k < a.1.len() && a.1[k] == d;
        assert(rows_fold(acc, code, rows).1[k] == d);
    }
}

proof fn lemma_table_fold_records(kl: Seq<(u32, Seq<char>)>, kcm: Seq<(Seq<char>, KcmKeyView)>, t: Seq<W3cKeyView>, i: int, j: int)
    requires
        0 <= i < t.len(),
        0 <= j < key_rows(kl, kcm, t[i].linux_keycode).len(),
        key_rows(kl, kcm, t[i].linux_keycode)[j].1.dead,
        key_rows(kl, kcm, t[i].linux_keycode)[j].1.output.len() > 0,
    ensures
        table_fold(kl, kcm, t).1.contains(
            (
                key_rows(kl, kcm, t[i].linux_keycode)[j].1.output,
                t[i].code,
                modifiers_for(key_rows(kl, kcm, t[i].linux_keycode)[j].0),
            ),
        ),
    decreases t.len(),
{
    let pre = t.drop_last();
    let row = key_rows(kl, kcm, t[i].linux_keycode)[j];
    let d = (row.1.output, t[i].code, modifiers_for(row.0));
    if i == t.len() - 1 {
        lemma_rows_fold_records(table_fold(kl, kcm, pre), t.last().code, key_rows(kl, kcm, t.last().linux_keycode), j);
    } else {
        assert(pre[i] == t[i]);
        lemma_table_fold_records(kl, kcm, pre, i, j);
        lemma_rows_fold_keeps_deads(table_fold(kl, kcm, pre), t.last().code, key_rows(kl, kcm, t.last().linux_keycode), d);
    }
}

proof fn lemma_alt_bases_has(ch: Seq<char>, alts: Seq<KeystrokeView>, c: Seq<char>)
    requires
        ch.len() == 1,
        alts.contains(single_view(c, seq![])),
    ensures
        alt_bases(ch, alts).contains((ch, c)),
    decreases alts.len(),
{
    let pre = alts.drop_last();
    let ks = alts.last();
    if ks == single_view(c, seq![]) {
        assert(ks.sequence[0] == KeyPressView { key: c, modifiers: seq![] });
        let r = alt_bases(ch, alts);
        assert(r[r.len() - 1] == (ch, c));
    } else {
        let k = choose|k: int| 0 <= k < alts.len() && alts[k] == single_view(c, seq![]);
        assert(k < alts.len() - 1);
        assert(pre[k] == alts[k]);
        lemma_alt_bases_has(ch, pre, c);
        let p = alt_bases(ch, pre);
        let m = choose|m: int| 0 <= m < p.len() && p[m] == (ch, c);
        let r = alt_bases(ch, alts);
        assert(r[m] == (ch, c));
    }
}

proof fn lemma_base_keys_has(ms: Seq<(Seq<char>, Seq<KeystrokeView>)>, r: int, c: Seq<char>)
    requires
        0 <= r < ms.len(),
        ms[r].0.len() == 1,
        ms[r].1.contains(single_view(c, seq![])),
    ensures
        base_keys(ms).contains((ms[r].0, c)),
    decreases ms.len(),
{
    let pre = ms.drop_last();
    let a = base_keys(pre);
    let b = alt_bases(ms.last().0, ms.last().1);
    if r == ms.len() - 1 {
        lemma_alt_bases_has(ms[r].0, ms[r].1, c);
        let m = choose|m: int| 0 <= m < b.len() && b[m] == (ms[r].0, c);
        assert((a + b)[a.len() + m] == (ms[r].0, c));
    } else {
        assert(pre[r] == ms[r]);
        lemma_base_keys_has(pre, r, c);
        let m = choose|m: int| 0 <= m < a.len() && a[m] == (ms[r].0, c);
        assert((a + b)[m] == (ms[r].0, c));
    }
}

proof fn lemma_compose_one_lists(
    ms: Seq<(Seq<char>, Seq<KeystrokeView>)>,
    d: (Seq<char>, Seq<char>, Seq<Seq<char>>),
    bases: Seq<(Seq<char>, Seq<char>)>,
    q: int,
)
    requires
        keys_distinct(ms),
        0 <= q < bases.len(),
        bases[q].1 != d.1,
    ensures
        lists(compose_one(ms, d, bases), d.0 + bases[q].0, dead_key_view(d.1, d.2, bases[q].1, seq![])),
    decreases bases.len(),
{
    let pre = bases.drop_last();
    let m = compose_one(ms, d, pre);
    let target = d.0 + bases[q].0;
    let ks = dead_key_view(d.1, d.2, bases[q].1, seq![]);
    lemma_compose_one_distinct(ms, d, pre);
    if q == bases.len() - 1 {
        lemma_append_lists(m, target, ks, target, ks);
    } else {
        assert(pre[q] == bases[q]);
        lemma_compose_one_lists(ms, d, pre, q);
        let b = bases.last();
        if b.1 != d.1 {
            lemma_append_lists(m, d.0 + b.0, dead_key_view(d.1, d.2, b.1, seq![]), target, ks);
        }
    }
}

proof fn lemma_compose_all_lists(
    ms: Seq<(Seq<char>, Seq<KeystrokeView>)>,
    deads: Seq<(Seq<char>, Seq<char>, Seq<Seq<char>>)>,
    bases: Seq<(Seq<char>, Seq<char>)>,
    p: int,
    q: int,
)
    requires
        keys_distinct(ms),
        0 <= p < deads.len(),
        0 <= q < bases.len(),
        bases[q].1 != deads[p].1,
    ensures
        lists(
            compose_all(ms, deads, bases),
            deads[p].0 + bases[q].0,
            dead_key_view(deads[p].1, deads[p].2, bases[q].1, seq![]),
        ),
    decreases deads.len(),
{
    let pre = deads.drop_last();
    let m = compose_all(ms, pre, bases);
    let target = deads[p].0 + bases[q].0;
    let ks = dead_key_view(deads[p].1, deads[p].2, bases[q].1, seq![]);
    lemma_compose_all_distinct(ms, pre, bases);
    if p == deads.len() - 1 {
        lemma_compose_one_lists(m, deads.last(), bases, q);
    } else {
        assert(pre[p] == deads[p]);
        lemma_compose_all_lists(ms, pre, bases, p, q);
        lemma_compose_one_keeps(m, deads.last(), bases, target, ks);
    }
}

/// Every dead-key row followed by another key's unmodified one-character row can be looked up:
/// the layout lists the two presses among the alternatives for the combined output.
pub proof fn lemma_android_dead_rows_listed(
    kl: Seq<(u32, Seq<char>)>,
    kcm: Seq<(Seq<char>, KcmKeyView)>,
    i1: int,
    j1: int,
    i2: int,
    j2: int,
    target: Seq<char>,
    ks: KeystrokeView,
)
    requires
        dead_rows_give(kl, kcm, i1, j1, i2, j2, target, ks),
    ensures
        lists(android_mappings(kl, kcm), target, ks),
{
    let t = w3c_table();
    let st = table_fold(kl, kcm, t);
    let bases = base_keys(st.0);
    let r1 = key_rows(kl, kcm, t[i1].linux_keycode);
    let r2 = key_rows(kl, kcm, t[i2].linux_keycode);
    let d = (r1[j1].1.output, t[i1].code, modifiers_for(r1[j1].0));
    lemma_table_fold_ok(kl, kcm, t);
    lemma_table_fold_records(kl, kcm, t, i1, j1);
    let p = choose|p: int| 0 <= p < st.1.len() && st.1[p] == d;
    lemma_table_fold_lists(kl, kcm, t, i2, j2);
    let out2 = r2[j2].1.output;
    assert(modifiers_for(r2[j2].0) =~= Seq::<Seq<char>>::empty());
    assert(lists(st.0, out2, single_view(t[i2].code, seq![])));
    lemma_key_pos(st.0, out2);
    let r = crate::strmap::key_pos(st.0, out2);
    lemma_base_keys_has(st.0, r, t[i2].code);
    let q = choose|q: int| 0 <= q < bases.len() && bases[q] == (out2, t[i2].code);
    lemma_compose_all_lists(st.0, st.1, bases, p, q);
}

/// Some entry of `ps` is stored under `k`.
pub open spec fn has_key<B>(ps: Seq<(Seq<char>, B)>, k: Seq<char>) -> bool {
    exists|i: int| 0 <= i < ps.len() && #[trigger] ps[i].0 == k
}

proof fn lemma_insert_has_key<B>(ps: Seq<(Seq<char>, B)>, k: Seq<char>, v: B, x: Seq<char>)
    ensures
        has_key(ps, x) ==> has_key(assoc_insert(ps, k, v), x),
        has_key(assoc_insert(ps, k, v), k),
{
    let qs = assoc_insert(ps, k, v);
    if crate::strmap::key_pos(ps, k) >= 0 {
        let p = crate::strmap::key_pos(ps, k);
        assert(ps[p].0 == k);
        assert(qs[p].0 == k);
        if has_key(ps, x) {
            let i = choose|i: int| 0 <= i < ps.len() && #[trigger] ps[i].0 == x;
            assert(qs[i].0 == x);
        }
    } else {
        assert(qs[ps.len() as int].0 == k);
        if has_key(ps, x) {
            let i = choose|i: int| 0 <= i < ps.len() && #[trigger] ps[i].0 == x;
            assert(qs[i].0 == x);
        }
    }
}

/// The block name a `.kcm` line opens, when it is a `[NAME]` header (comment removed, trimmed,
/// starting with `[`): the text after the `[` up to the first `]`, trimmed.
pub open spec fn opened_block(line: Seq<char>) -> Option<Seq<char>> {
    let t = trim(before(line, '#'));
    if t.len() > 0 && t[0] == '[' {
        Some(trim(before(t.drop_first(), ']')))
    } else {
        None
    }
}

proof fn lemma_kcm_run_keeps(file: Seq<(Seq<char>, KcmKeyView)>, st: KcmState, ls: Seq<Seq<char>>)
    ensures
        kcm_run(file, st, ls) matches Ok(f) ==> {
            &&& forall|k: Seq<char>| #[trigger] has_key(file, k) ==> has_key(f, k)
            &&& (st matches KcmState::Block(n, _) ==> has_key(f, n))
            &&& forall|l: int| 0 <= l < ls.len() && (#[trigger] opened_block(ls[l])) is Some ==> has_key(f, opened_block(ls[l])->0)
        },
    decreases ls.len(),
{
    if ls.len() == 0 {
        if let KcmState::Block(n, key) = st {
            assert forall|k: Seq<char>| #[trigger] has_key(file, k) implies has_key(assoc_insert(file, n, key), k) by {
                lemma_insert_has_key(file, n, key, k);
            }
            lemma_insert_has_key(file, n, key, n);
        }
    } else {
        let rest = ls.drop_first();
        if let Ok((f1, s2)) = kcm_step(file, st, ls[0]) {
            lemma_kcm_run_keeps(f1, s2, rest);
            if let Ok(f) = kcm_run(file, st, ls) {
                let t = trim(before(ls[0], '#'));
                // What the first line keeps or opens.
                assert forall|k: Seq<char>| #[trigger] has_key(file, k) implies has_key(f1, k) by {
                    if let KcmState::Block(n, key) = st {
                        lemma_insert_has_key(file, n, key, k);
                    }
                }
                if let KcmState::Block(n, key) = st {
                    lemma_insert_has_key(file, n, key, n);
                    assert(has_key(f1, n) || (s2 matches KcmState::Block(n2, _) && n2 == n));
                }
                assert forall|l: int| 0 <= l < ls.len() && (#[trigger] opened_block(ls[l])) is Some implies has_key(
                    f,
                    opened_block(ls[l])->0,
                ) by {
                    if l > 0 {
                        assert(ls[l] == rest[l - 1]);
                    } else {
                        assert(s2 == KcmState::Block(opened_block(ls[0])->0, empty_key())) by {
                            assert(t[0] == '[');
                        }
                    }
                }
            }
        }
    }
}

/// Every `[NAME]` header of a `.kcm` file that parses stores a block under its name, whether
/// the block ends at a blank line, at the next header or at the end of the input.
pub proof fn lemma_kcm_every_header_stored(input: Seq<char>, l: int)
    requires
        0 <= l < lines(input).len(),
        opened_block(lines(input)[l]) is Some,
    ensures
        kcm_file(input) matches Ok(f) ==> has_key(f, opened_block(lines(input)[l])->0),
{
    lemma_kcm_run_keeps(seq![], KcmState::Outside, lines(input));
}

} // verus!
