use omni_keymap::android::{
    build_layout, build_layout_at, decode_char_literal, modifiers_for_state, parse_char_literal,
    parse_kcm, parse_kl, EscapeFault, KcmError, KcmFile, KlError, KlFile,
};
use omni_keymap::model::Keystroke;

const KL_SAMPLE: &str = r#"
# Test key layout file
key 30 A
key 48 B
key 46 C
key 40 APOSTROPHE
key 2 1
"#;

const KCM_SAMPLE: &str = r#"
[A] key
    label: 'a'
    base: 'a'
    shift, capslock: 'A'
    alt: '\u00e4'
    shift+alt: '\u00c4'

[B] key
    label: 'b'
    base: 'b'
    shift, capslock: 'B'

[C] key
    label: 'c'
    base: 'c'
    shift, capslock: 'C'

[APOSTROPHE] key
    label: '\''
    base: '\''
    shift: '"'
    alt: '\u00b4' dead
"#;

fn parse_ok() -> (KlFile, KcmFile) {
    let kl = parse_kl(KL_SAMPLE).unwrap();
    let kcm = parse_kcm(KCM_SAMPLE).unwrap();
    (kl, kcm)
}

#[test]
fn parse_kl_skips_comments_and_unknown_directives() {
    let kl = parse_kl(KL_SAMPLE).unwrap();
    let codes: Vec<u32> = kl.iter().map(|e| e.linux_keycode).collect();
    assert_eq!(codes, vec![30, 48, 46, 40, 2]);
    assert_eq!(kl[0].android_name, "A");
}

#[test]
fn parse_kl_errors_on_missing_keycode() {
    let bad = "key A";
    assert!(parse_kl(bad).is_err());
}

#[test]
fn parse_kcm_reads_modifier_rows() {
    let (_, kcm) = parse_ok();
    let a = kcm.get("A").unwrap();
    assert_eq!(a.label.as_deref(), Some("a"));
    assert_eq!(a.rows.get("base").unwrap().output, "a");
    assert_eq!(a.rows.get("shift, capslock").unwrap().output, "A");
    assert_eq!(a.rows.get("alt").unwrap().output, "\u{00e4}");
}

#[test]
fn parse_kcm_marks_dead_keys() {
    let (_, kcm) = parse_ok();
    let q = kcm.get("APOSTROPHE").unwrap();
    let alt = q.rows.get("alt").unwrap();
    assert!(alt.dead);
    assert_eq!(alt.output, "\u{00b4}");
}

#[test]
fn build_layout_emits_base_mappings() {
    let (kl, kcm) = parse_ok();
    let layout = build_layout(&kl, &kcm).unwrap();
    let a = layout.mappings.get("a").unwrap();
    assert!(a.contains(&Keystroke::single("KeyA", vec![])));
    let cap = layout.mappings.get("A").unwrap();
    assert!(cap.contains(&Keystroke::single("KeyA", vec!["Shift".to_string()])));
}

#[test]
fn build_layout_emits_alt_mapping() {
    let (kl, kcm) = parse_ok();
    let layout = build_layout(&kl, &kcm).unwrap();
    let alt = layout.mappings.get("\u{00e4}").unwrap();
    assert!(alt.contains(&Keystroke::single("KeyA", vec!["Alt".to_string()])));
}

#[test]
fn build_layout_emits_dead_key_compositions() {
    let (kl, kcm) = parse_ok();
    let layout = build_layout(&kl, &kcm).unwrap();
    let composed = layout.mappings.get("\u{00b4}a");
    assert!(
        composed.is_some(),
        "missing dead-key composition for dead-accent + a"
    );
    let ks = composed
        .unwrap()
        .iter()
        .find(|k| k.sequence.len() == 2)
        .unwrap();
    // The dead source key for APOSTROPHE maps to linux keycode 40 -> W3C `Quote`.
    assert_eq!(ks.sequence[0].key, "Quote");
    assert_eq!(ks.sequence[1].key, "KeyA");
}

#[test]
fn build_layout_metadata_is_android() {
    let (kl, kcm) = parse_ok();
    let layout = build_layout(&kl, &kcm).unwrap();
    assert_eq!(layout.metadata.platform, "android");
}

#[test]
fn decode_char_literal_handles_unicode_escape() {
    let s = decode_char_literal("'\\u00e4'").unwrap();
    assert_eq!(s, "\u{00e4}");
}

#[test]
fn decode_char_literal_handles_plain() {
    let s = decode_char_literal("'a'").unwrap();
    assert_eq!(s, "a");
}

#[test]
fn decode_char_literal_rejects_unterminated() {
    assert!(decode_char_literal("'a").is_err());
}

#[test]
fn parse_kcm_minimal_file() {
    let kcm = "[A] key\n    base: 'a'\n";
    let f = parse_kcm(kcm).unwrap();
    assert_eq!(f.get("A").unwrap().rows.get("base").unwrap().output, "a");
}

#[test]
fn parse_kl_reports_each_refusal_with_its_line() {
    assert_eq!(parse_kl("\nkey"), Err(KlError::MissingKeycode { line: 2 }));
    assert_eq!(
        parse_kl("key A"),
        Err(KlError::BadKeycode { line: 1, token: "A".to_string() })
    );
    assert_eq!(
        parse_kl("key 30 A\nkey x1 B\n"),
        Err(KlError::BadKeycode { line: 2, token: "x1".to_string() })
    );
    assert_eq!(parse_kl("key 30"), Err(KlError::MissingAndroidName { line: 1 }));
    assert_eq!(
        parse_kl("key 4294967296 A"),
        Err(KlError::BadKeycode { line: 1, token: "4294967296".to_string() })
    );
    let ok = parse_kl("key +7 SEVEN # trailing\naxis 1 X\n").unwrap();
    assert_eq!(ok.len(), 1);
    assert_eq!(ok[0].linux_keycode, 7);
    assert_eq!(ok[0].android_name, "SEVEN");
    assert!(parse_kl("").unwrap().is_empty());
}

#[test]
fn decode_char_literal_escapes() {
    assert_eq!(decode_char_literal("'\\n\\t\\r\\\\\\'\\\"\\q'").unwrap(), "\n\t\r\\'\"q");
    assert_eq!(decode_char_literal("'\\U01F600'").unwrap(), "\u{1F600}");
    assert_eq!(decode_char_literal("''").unwrap(), "");
    assert_eq!(decode_char_literal("'\\u00e4x'").unwrap(), "\u{00e4}x");
    assert_eq!(decode_char_literal("x").unwrap_err().fault, EscapeFault::Malformed);
    assert_eq!(decode_char_literal("'\\uzz'").unwrap_err().fault, EscapeFault::BadHex { wide: false });
    assert_eq!(
        decode_char_literal("'\\ud800'").unwrap_err().fault,
        EscapeFault::BadCodepoint { codepoint: 0xD800, wide: false }
    );
    assert_eq!(decode_char_literal("'\\'").unwrap_err().fault, EscapeFault::TrailingBackslash);
}

#[test]
fn parse_char_literal_finds_dead_marker() {
    assert_eq!(
        parse_char_literal("  '\\u00b4' dead"),
        Some(("\u{00b4}".to_string(), true, "".to_string()))
    );
    assert_eq!(
        parse_char_literal("'x' deadline"),
        Some(("x".to_string(), false, "deadline".to_string()))
    );
    assert_eq!(parse_char_literal("x 'y'"), None);
    assert_eq!(parse_char_literal("'a' # note"), Some(("a".to_string(), false, "".to_string())));
}

#[test]
fn parse_kcm_refusals() {
    assert_eq!(
        parse_kcm("label: 'a'"),
        Err(KcmError::ExpectedHeader { line: "label: 'a'".to_string() })
    );
    assert_eq!(
        parse_kcm("[A]\n    labelx 'a'"),
        Err(KcmError::BadLabel { block: "A".to_string() })
    );
    assert_eq!(
        parse_kcm("[A]\n    base 'a'"),
        Err(KcmError::BadRow { block: "A".to_string(), row: "base 'a'".to_string() })
    );
}

#[test]
fn parse_kcm_later_block_replaces_earlier() {
    let f = parse_kcm("[A]\n base: 'a'\n[A]\n base: 'b'\n").unwrap();
    assert_eq!(f.len(), 1);
    assert_eq!(f.get("A").unwrap().rows.get("base").unwrap().output, "b");
}

#[test]
fn modifiers_for_state_maps_names() {
    assert_eq!(modifiers_for_state("base"), Vec::<String>::new());
    assert_eq!(modifiers_for_state("shift, capslock"), vec!["Shift".to_string()]);
    assert_eq!(modifiers_for_state("capslock"), vec!["Shift".to_string()]);
    assert_eq!(modifiers_for_state(" alt ,shift"), vec!["Shift".to_string(), "Alt".to_string()]);
    assert_eq!(modifiers_for_state("shift+alt"), Vec::<String>::new());
}

#[test]
fn build_layout_at_stamps_time_and_skips_unknown_keys() {
    let (kl, kcm) = parse_ok();
    let layout = build_layout_at(&kl, &kcm, "2026-07-06T22:42:04Z".to_string());
    assert_eq!(layout.metadata.extracted_on, "2026-07-06T22:42:04Z");
    assert_eq!(layout.metadata.layout_name, "android");
    assert!(layout.metadata.layout_variant.is_none());
    // Digit1 is in the .kl file but has no .kcm block.
    assert!(layout.mappings.get("1").is_none());
    // The dead key itself is also reachable as a single press.
    assert!(layout
        .mappings
        .get("\u{00b4}")
        .unwrap()
        .contains(&Keystroke::single("Quote", vec!["Alt".to_string()])));
    // No composition with the dead key's own key.
    assert!(layout.mappings.get("\u{00b4}'").is_none());
    assert!(layout.validate().is_ok());
}
