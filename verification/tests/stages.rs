use omni_keymap::linux::{linux_first_stage, linux_layout, KeyLevels, LevelSym};
use omni_keymap::macos::{mac_first_stage, mac_layout, ModState, Translation};
use omni_keymap::model::{Keystroke, LayoutFile};
use omni_keymap::w3c_keys::w3c_keys;
use omni_keymap::windows::windows_layout;

fn index_of(code: &str) -> usize {
    w3c_keys().iter().position(|k| k.code == code).unwrap()
}

fn alts(l: &LayoutFile, target: &str) -> Vec<Keystroke> {
    l.mappings.get(target).cloned().unwrap_or_default()
}

fn sym(name: &str, utf8: &str) -> Option<LevelSym> {
    Some(LevelSym { name: name.to_string(), utf8: utf8.to_string() })
}

fn linux_reports() -> Vec<KeyLevels> {
    let mut keys: Vec<KeyLevels> = (0..w3c_keys().len())
        .map(|_| KeyLevels { num_levels: 0, syms: vec![None, None, None, None] })
        .collect();
    keys[index_of("KeyA")] = KeyLevels {
        num_levels: 3,
        syms: vec![sym("a", "a"), sym("A", "A"), sym("ae", "æ\0"), sym("AE", "Æ")],
    };
    keys[index_of("Quote")] = KeyLevels {
        num_levels: 2,
        syms: vec![sym("dead_acute", ""), sym("dead_diaeresis", ""), None, None],
    };
    keys[index_of("KeyE")] = KeyLevels {
        num_levels: 1,
        syms: vec![sym("e", "e"), None, None, None],
    };
    keys
}

#[test]
fn linux_first_stage_collects_levels_and_dead_keys() {
    let st = linux_first_stage(&linux_reports());
    assert_eq!(st.mappings.len(), 4);
    assert_eq!(st.mappings.get("a").unwrap(), &vec![Keystroke::single("KeyA", vec![])]);
    assert_eq!(
        st.mappings.get("A").unwrap(),
        &vec![Keystroke::single("KeyA", vec!["Shift".to_string()])]
    );
    // The trailing NUL is dropped; the fourth level is beyond the key's three levels.
    assert_eq!(
        st.mappings.get("æ").unwrap(),
        &vec![Keystroke::single("KeyA", vec!["AltGraph".to_string()])]
    );
    assert!(st.mappings.get("Æ").is_none());
    assert_eq!(
        st.dead_sources,
        vec![(40u32, vec![]), (40u32, vec!["Shift".to_string()])]
    );
}

#[test]
fn linux_layout_composes_dead_keys() {
    let st = linux_first_stage(&linux_reports());
    let n = w3c_keys().len();
    let mut acute: Vec<Option<String>> = vec![None; n];
    acute[index_of("KeyA")] = Some("á".to_string());
    acute[index_of("KeyE")] = Some("é".to_string());
    acute[index_of("Quote")] = Some("´".to_string());
    acute[index_of("Digit1")] = Some(String::new());
    let mut diaeresis: Vec<Option<String>> = vec![None; n];
    diaeresis[index_of("KeyE")] = Some("ë".to_string());
    let l = linux_layout("us", Some("intl"), "2026-07-06T22:42:04Z".to_string(), st, &vec![acute, diaeresis]);
    assert_eq!(l.metadata.platform, "linux");
    assert_eq!(l.metadata.layout_name, "us");
    assert_eq!(l.metadata.layout_variant.as_deref(), Some("intl"));
    assert_eq!(l.metadata.display_name, None);
    assert_eq!(l.metadata.extracted_on, "2026-07-06T22:42:04Z");
    assert_eq!(
        alts(&l, "á"),
        vec![Keystroke::dead_key("Quote", vec![], "KeyA", vec![])]
    );
    assert_eq!(
        alts(&l, "ë"),
        vec![Keystroke::dead_key("Quote", vec!["Shift".to_string()], "KeyE", vec![])]
    );
    // The dead key with itself, and empty compositions, are skipped.
    assert!(l.mappings.get("´").is_none());
    assert!(l.mappings.get("").is_none());
    assert_eq!(l.mappings.len(), 7);
    assert!(l.validate().is_ok());
}

fn mac_reports() -> Vec<Vec<Translation>> {
    let none = || Translation { text: None, dead: false };
    let text = |s: &str| Translation { text: Some(s.to_string()), dead: false };
    let mut keys: Vec<Vec<Translation>> = (0..w3c_keys().len())
        .map(|_| vec![none(), none(), none(), none()])
        .collect();
    keys[index_of("KeyA")] = vec![text("a"), text("A"), text("å"), text("Å")];
    keys[index_of("KeyE")] = vec![
        text("e"),
        text("E"),
        Translation { text: None, dead: true },
        text(""),
    ];
    keys
}

#[test]
fn mac_first_stage_collects_states_and_dead_keys() {
    let st = mac_first_stage(&mac_reports());
    assert_eq!(st.mappings.len(), 6);
    assert_eq!(
        st.mappings.get("å").unwrap(),
        &vec![Keystroke::single("KeyA", vec!["Alt".to_string()])]
    );
    assert_eq!(
        st.mappings.get("Å").unwrap(),
        &vec![Keystroke::single("KeyA", vec!["Shift".to_string(), "Alt".to_string()])]
    );
    // An empty text gives no mapping.
    assert!(st.mappings.get("").is_none());
    assert_eq!(st.dead_sources, vec![(14u32, ModState::Option)]);
}

#[test]
fn mac_layout_composes_dead_keys() {
    let st = mac_first_stage(&mac_reports());
    let n = w3c_keys().len();
    let mut outs: Vec<Option<String>> = vec![None; n];
    outs[index_of("KeyA")] = Some("á".to_string());
    outs[index_of("KeyE")] = Some("é".to_string());
    let l = mac_layout(
        "com.apple.keylayout.US",
        None,
        Some("U.S.".to_string()),
        "2026-07-06T22:42:04Z".to_string(),
        st,
        &vec![outs],
    );
    assert_eq!(l.metadata.platform, "macos");
    assert_eq!(l.metadata.display_name.as_deref(), Some("U.S."));
    assert_eq!(
        alts(&l, "á"),
        vec![Keystroke::dead_key("KeyE", vec!["Alt".to_string()], "KeyA", vec![])]
    );
    assert!(l.mappings.get("é").is_none());
    assert!(l.validate().is_ok());
}

#[test]
fn windows_layout_has_metadata_and_no_mappings() {
    let vks: Vec<u16> = (0..w3c_keys().len()).map(|i| i as u16).collect();
    let l = windows_layout("00000409", None, "2026-07-06T22:42:04Z".to_string(), 0, &vks);
    assert_eq!(l.metadata.platform, "windows");
    assert_eq!(l.metadata.layout_name, "00000409");
    assert_eq!(l.mappings.len(), 0);
    assert!(l.validate().is_ok());
}
