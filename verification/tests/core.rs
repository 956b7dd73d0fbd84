use omni_keymap::model::{KeyPress, KeymapDb, KeymapError, Keystroke, LayoutFile, LayoutMetadata};
use omni_keymap::strmap::StrMap;

fn us_layout() -> LayoutFile {
    let mut mappings = StrMap::new();
    mappings.insert("a".to_string(), vec![Keystroke::single("KeyA", vec![])]);
    mappings.insert(
        "A".to_string(),
        vec![Keystroke::single("KeyA", vec!["Shift".to_string()])],
    );
    mappings.insert("1".to_string(), vec![Keystroke::single("Digit1", vec![])]);
    mappings.insert(
        "!".to_string(),
        vec![Keystroke::single("Digit1", vec!["Shift".to_string()])],
    );
    // Dead key: acute accent (`Quote` + base) on US-International.
    mappings.insert(
        "á".to_string(),
        vec![Keystroke::dead_key("Quote", vec![], "KeyA", vec![])],
    );
    LayoutFile {
        metadata: LayoutMetadata {
            platform: "linux".to_string(),
            layout_name: "us".to_string(),
            layout_variant: Some("intl".to_string()),
            display_name: Some("English (US, intl)".to_string()),
            extracted_on: "2026-07-06T22:42:04Z".to_string(),
        },
        mappings,
    }
}

#[test]
fn keypress_validate_accepts_known_modifiers() {
    let kp = KeyPress::with_modifiers(
        "KeyA",
        vec!["Shift".to_string(), "AltGraph".to_string()],
    );
    assert!(kp.validate().is_ok());
}

#[test]
fn keypress_validate_rejects_unknown_modifier() {
    let kp = KeyPress::with_modifiers("KeyA", vec!["Hyper".to_string()]);
    assert!(kp.validate().is_err());
}

#[test]
fn keystroke_validate_rejects_empty_sequence() {
    let ks = Keystroke { sequence: vec![] };
    assert!(ks.validate().is_err());
}

#[test]
fn layout_validate_rejects_empty_target() {
    let mut bad = us_layout();
    bad.mappings.insert("".to_string(), vec![Keystroke::single("KeyA", vec![])]);
    assert!(bad.validate().is_err());
}

#[test]
fn layout_validate_rejects_empty_alternatives() {
    let mut bad = us_layout();
    bad.mappings.insert("z".to_string(), vec![]);
    assert!(bad.validate().is_err());
}

#[test]
fn index_key_with_and_without_variant() {
    assert_eq!(KeymapDb::index_key("linux", "us", None), "linux/us");
    assert_eq!(
        KeymapDb::index_key("linux", "us", Some("intl")),
        "linux/us+intl"
    );
    assert_eq!(KeymapDb::index_key("linux", "us", Some("")), "linux/us");
}

#[test]
fn insert_and_lookup_with_variant() {
    let mut db = KeymapDb::new();
    let key = db.insert(us_layout()).unwrap();
    assert_eq!(key, "linux/us+intl");
    let alts = db.lookup_variant("linux", "us", Some("intl"), "a").unwrap();
    assert_eq!(alts.len(), 1);
    assert_eq!(alts[0], Keystroke::single("KeyA", vec![]));
}

#[test]
fn lookup_returns_none_for_missing_character() {
    let mut db = KeymapDb::new();
    db.insert(us_layout()).unwrap();
    assert!(db.lookup_variant("linux", "us", Some("intl"), "Q").is_none());
}

#[test]
fn dead_key_sequence_round_trips() {
    let layout = us_layout();
    let alts = layout.mappings.get("á").unwrap();
    assert_eq!(alts.len(), 1);
    assert_eq!(alts[0].sequence.len(), 2);
    assert_eq!(alts[0].sequence[0], KeyPress::new("Quote"));
    assert_eq!(alts[0].sequence[1], KeyPress::new("KeyA"));
}

#[test]
fn load_dir_errors_on_empty_directory() {
    let res = KeymapDb::load_dir(Vec::new());
    assert!(res.is_err());
}

#[test]
fn load_dir_inserts_every_layout_in_order() {
    let mut second = us_layout();
    second.metadata.layout_variant = None;
    let db = KeymapDb::load_dir(vec![us_layout(), second]).unwrap();
    assert_eq!(db.len(), 2);
    assert_eq!(db.keys(), vec!["linux/us+intl".to_string(), "linux/us".to_string()]);
    assert!(db.get("linux", "us").is_some());
    assert!(db.get_variant("linux", "us", Some("intl")).is_some());
}

#[test]
fn load_dir_reports_the_first_invalid_layout() {
    let mut bad = us_layout();
    bad.metadata.platform = String::new();
    let res = KeymapDb::load_dir(vec![us_layout(), bad]);
    assert_eq!(res.unwrap_err(), KeymapError::EmptyPlatform);
}

#[test]
fn refused_insert_leaves_database_unchanged() {
    let mut db = KeymapDb::new();
    db.insert(us_layout()).unwrap();
    let mut bad = us_layout();
    bad.metadata.layout_variant = None;
    bad.mappings.insert("z".to_string(), vec![]);
    assert_eq!(
        db.insert(bad),
        Err(KeymapError::EmptyAlternatives { target: "z".to_string() })
    );
    assert_eq!(db.len(), 1);
    assert!(db.get("linux", "us").is_none());
}

#[test]
fn insert_replaces_layout_with_same_key() {
    let mut db = KeymapDb::new();
    db.insert(us_layout()).unwrap();
    let mut newer = us_layout();
    newer.mappings.insert("b".to_string(), vec![Keystroke::single("KeyB", vec![])]);
    db.insert(newer).unwrap();
    assert_eq!(db.len(), 1);
    assert!(db.lookup_variant("linux", "us", Some("intl"), "b").is_some());
    assert!(db.lookup("linux", "us", "b").is_none());
}

#[test]
fn validation_errors_name_their_cause() {
    let kp = KeyPress::with_modifiers("KeyA", vec!["Shift".to_string(), "Hyper".to_string()]);
    assert_eq!(
        kp.validate(),
        Err(KeymapError::InvalidModifier { modifier: "Hyper".to_string(), key: "KeyA".to_string() })
    );
    let mut l = us_layout();
    l.metadata.layout_name = String::new();
    assert_eq!(l.validate(), Err(KeymapError::EmptyLayoutName));
    let mut l = us_layout();
    l.metadata.extracted_on = String::new();
    assert_eq!(l.validate(), Err(KeymapError::EmptyExtractedOn));
    let mut l = us_layout();
    l.mappings.insert("x".to_string(), vec![Keystroke { sequence: vec![] }]);
    assert_eq!(l.validate(), Err(KeymapError::EmptySequence));
    assert_eq!(us_layout().validate(), Ok(()));
}

#[test]
fn strmap_insert_keeps_order_and_replaces() {
    let mut m: StrMap<u32> = StrMap::new();
    assert!(m.is_empty());
    assert_eq!(m.insert("x".to_string(), 1), None);
    assert_eq!(m.insert("y".to_string(), 2), None);
    assert_eq!(m.insert("x".to_string(), 3), Some(1));
    assert_eq!(m.len(), 2);
    assert_eq!(m.keys(), vec!["x".to_string(), "y".to_string()]);
    assert_eq!(m.get("x"), Some(&3));
    assert!(m.contains_key("y"));
    assert!(!m.contains_key("z"));
}

#[test]
fn known_modifiers_are_the_w3c_set() {
    for m in ["Shift", "Control", "Alt", "AltGraph", "Meta"] {
        assert!(omni_keymap::model::known_modifier(m));
    }
    assert!(!omni_keymap::model::known_modifier("shift"));
    assert!(!omni_keymap::model::known_modifier(""));
}

#[test]
fn insert_keeps_other_layouts() {
    let mut db = KeymapDb::new();
    db.insert(us_layout()).unwrap();
    let mut plain = us_layout();
    plain.metadata.layout_variant = None;
    plain.mappings = StrMap::new();
    plain.mappings.insert("q".to_string(), vec![Keystroke::single("KeyQ", vec![])]);
    assert_eq!(db.insert(plain).unwrap(), "linux/us");
    assert_eq!(db.len(), 2);
    assert_eq!(
        db.lookup_variant("linux", "us", Some("intl"), "a").unwrap(),
        &vec![Keystroke::single("KeyA", vec![])]
    );
    assert!(db.lookup("linux", "us", "a").is_none());
    assert_eq!(
        db.lookup("linux", "us", "q").unwrap(),
        &vec![Keystroke::single("KeyQ", vec![])]
    );
    assert_eq!(
        db.get_variant("linux", "us", Some("")).unwrap().metadata.layout_variant,
        None
    );
    assert_eq!(db.keys(), vec!["linux/us+intl".to_string(), "linux/us".to_string()]);
}

#[test]
fn strmap_into_sorted_orders_keys_as_strings_do() {
    let mut m: StrMap<u32> = StrMap::new();
    for (k, v) in [("é", 1u32), ("b", 2), ("", 3), ("ab", 4), ("a", 5), ("B", 6)] {
        m.insert(k.to_string(), v);
    }
    let sorted = m.into_sorted();
    let mut expected: Vec<String> = ["é", "b", "", "ab", "a", "B"].iter().map(|s| s.to_string()).collect();
    expected.sort();
    assert_eq!(sorted.keys(), expected);
    assert_eq!(sorted.get("ab"), Some(&4));
    assert_eq!(sorted.len(), 6);
}

#[test]
fn load_dir_keeps_the_last_layout_of_each_key() {
    let mut newer = us_layout();
    newer.metadata.extracted_on = "2027-01-01T00:00:00Z".to_string();
    let mut plain = us_layout();
    plain.metadata.layout_variant = None;
    let db = KeymapDb::load_dir(vec![us_layout(), plain, newer]).unwrap();
    assert_eq!(db.len(), 2);
    assert_eq!(
        db.get_variant("linux", "us", Some("intl")).unwrap().metadata.extracted_on,
        "2027-01-01T00:00:00Z"
    );
    assert!(db.get_variant("linux", "fr", None).is_none());
}
