use omni_keymap::batch::{
    record, BatchItem, BatchStatus, BatchSummary, EvdevList,
};
use omni_keymap::cli::{android_inputs, file_stem, task_of, Cli, CliError, Platform, Task};
use omni_keymap::clock::{civil_from_days, iso8601_from_unix, now_iso8601};
use omni_keymap::linux::levels;
use omni_keymap::model::KeymapDb;
use omni_keymap::macos::ModState;
use omni_keymap::w3c_keys::{all_codes, lookup, w3c_keys};
use omni_keymap::windows::ModState as WinModState;

const LST_SAMPLE: &str = "\
// comment
! layout
  us  English (US)
  fr  French
  de  German
! variant
  nodeadkeys  fr: French (no dead keys)
  intl        us: English (US, intl., with dead keys)
  deadacute   de: German (dead acute)
! option
  some:opt description
";

#[test]
fn parse_layouts_and_variants() {
    let ev = EvdevList::parse(LST_SAMPLE).unwrap();
    assert_eq!(ev.layouts.len(), 3);
    assert_eq!(ev.layouts[0].name, "us");
    assert_eq!(ev.layouts[1].name, "fr");
    assert_eq!(ev.variants.len(), 3);
    assert_eq!(ev.variants[0].variant, "nodeadkeys");
    assert_eq!(ev.variants[0].layout, "fr");
    assert_eq!(ev.variants[1].variant, "intl");
    assert_eq!(ev.variants[1].layout, "us");
    assert_eq!(ev.variants[2].layout, "de");
}

#[test]
fn variants_by_layout_groups_correctly() {
    let ev = EvdevList::parse(LST_SAMPLE).unwrap();
    let map = ev.variants_by_layout();
    assert_eq!(map.get("fr").unwrap().len(), 1);
    assert_eq!(map.get("us").unwrap().len(), 1);
    assert_eq!(map.get("de").unwrap().len(), 1);
    assert!(map.get("jp").is_none());
}

#[test]
fn parse_errors_on_missing_layout_section() {
    let bad = "! variant\n  foo  bar: desc\n";
    assert!(EvdevList::parse(bad).is_err());
}

#[test]
fn parse_skips_unknown_sections() {
    let raw = "! layout\n  us  English (US)\n! option\n  foo:bar baz\n";
    let ev = EvdevList::parse(raw).unwrap();
    assert_eq!(ev.layouts.len(), 1);
    assert_eq!(ev.variants.len(), 0);
}

#[test]
fn variant_description_is_captured() {
    let ev = EvdevList::parse(LST_SAMPLE).unwrap();
    assert_eq!(ev.variants[1].description, "English (US, intl., with dead keys)");
}

#[test]
fn batch_summary_display_lists_failures() {
    let mut s = BatchSummary::default();
    s.ok = 5;
    s.skipped = 1;
    s.failures.push(BatchItem {
        layout: "xx".to_string(),
        variant: None,
        status: BatchStatus::Skipped {
            error: "bad".to_string(),
        },
    });
    let out = s.to_string();
    assert!(out.contains("5 ok"));
    assert!(out.contains("xx"));
    assert!(out.contains("bad"));
}

#[test]
fn batch_summary_text_is_exact() {
    let mut s = BatchSummary::default();
    assert_eq!(s.to_string(), "0 ok, 0 skipped, 0 total mappings");
    record(
        &mut s,
        &BatchItem {
            layout: "us".to_string(),
            variant: None,
            status: BatchStatus::Written { mappings: 120, path: "out/us.json".to_string() },
        },
    );
    record(
        &mut s,
        &BatchItem {
            layout: "custom".to_string(),
            variant: Some("x".to_string()),
            status: BatchStatus::Skipped { error: "no symbols".to_string() },
        },
    );
    assert_eq!(s.ok, 1);
    assert_eq!(s.skipped, 1);
    assert_eq!(s.total_mappings, 120);
    assert_eq!(s.failures.len(), 1);
    assert_eq!(
        s.to_string(),
        "1 ok, 1 skipped, 120 total mappings\nfailed layouts:\n  custom+x: no symbols"
    );
}

#[test]
fn evdev_rows_without_parent_or_name_are_skipped() {
    let raw = "! layout\n  us\n! variant\n  lonely\n  odd  :: desc\n  ok  us:: two  words\n";
    let ev = EvdevList::parse(raw).unwrap();
    assert_eq!(ev.layouts.len(), 1);
    assert_eq!(ev.layouts[0].description, "");
    assert_eq!(ev.variants.len(), 1);
    assert_eq!(ev.variants[0].layout, "us");
    assert_eq!(ev.variants[0].description, "two  words");
    assert!(EvdevList::parse("!!  layout  \n  fr French\n").is_ok());
}

#[test]
fn levels_table_modifiers_correct() {
    let levels = levels();
    assert_eq!(levels[0].1, Vec::<String>::new());
    assert_eq!(levels[1].1, vec!["Shift".to_string()]);
    assert_eq!(levels[2].1, vec!["AltGraph".to_string()]);
    assert_eq!(levels[3].1, vec!["Shift".to_string(), "AltGraph".to_string()]);
}

#[test]
fn modstate_modifiers_correct() {
    assert_eq!(ModState::Unmodified.w3c_modifiers(), Vec::<String>::new());
    assert_eq!(ModState::Shift.w3c_modifiers(), vec!["Shift".to_string()]);
    assert_eq!(ModState::Option.w3c_modifiers(), vec!["Alt".to_string()]);
    assert_eq!(
        ModState::ShiftOption.w3c_modifiers(),
        vec!["Shift".to_string(), "Alt".to_string()]
    );
}

#[test]
fn carbon_modifier_masks() {
    assert_eq!(ModState::Unmodified.carbon_modifier_mask(), 0);
    assert_eq!(ModState::Shift.carbon_modifier_mask(), 1 << 1);
    assert_eq!(ModState::Option.carbon_modifier_mask(), 1 << 3);
    assert_eq!(ModState::ShiftOption.carbon_modifier_mask(), (1 << 1) | (1 << 3));
}

#[test]
fn windows_modstate_tables() {
    assert_eq!(WinModState::Unmodified.w3c_modifiers(), Vec::<String>::new());
    assert_eq!(
        WinModState::ShiftAltGr.w3c_modifiers(),
        vec!["Shift".to_string(), "AltGraph".to_string()]
    );
    assert_eq!(WinModState::AltGraph.key_states(), vec![0x11, 0x12]);
    assert_eq!(WinModState::Shift.key_states(), vec![0x10]);
}

#[test]
fn iso8601_from_unix_known_value() {
    // 2026-07-06T22:42:04Z = 1783377724 seconds since epoch.
    assert_eq!(iso8601_from_unix(1783377724), "2026-07-06T22:42:04Z");
}

#[test]
fn civil_from_days_epoch() {
    // 1970-01-01 is day 0.
    let (y, m, d) = civil_from_days(0);
    assert_eq!((y, m, d), (1970, 1, 1));
}

#[test]
fn civil_from_days_leap_year() {
    // 2024-02-29 = day 19782.
    let (y, m, d) = civil_from_days(19782);
    assert_eq!((y, m, d), (2024, 2, 29));
}

#[test]
fn civil_from_days_far_values() {
    assert_eq!(civil_from_days(-1), (1969, 12, 31));
    assert_eq!(civil_from_days(-719468), (0, 3, 1));
    assert_eq!(civil_from_days(10957), (2000, 1, 1));
    assert_eq!(civil_from_days(11016), (2000, 2, 29));
    assert_eq!(civil_from_days(-25508), (1900, 3, 1));
    assert_eq!(iso8601_from_unix(0), "1970-01-01T00:00:00Z");
    assert_eq!(iso8601_from_unix(86399), "1970-01-01T23:59:59Z");
}

#[test]
fn now_iso8601_has_the_iso_shape() {
    let now = now_iso8601();
    assert_eq!(now.len(), 20);
    assert!(now.ends_with('Z'));
    assert_eq!(&now[4..5], "-");
    assert_eq!(&now[10..11], "T");
}

#[test]
fn cli_platform_enum_parses() {
    let p = Platform::from_str("linux", true).unwrap();
    assert_eq!(p, Platform::Linux);
}

#[test]
fn cli_platform_names_and_case() {
    assert_eq!(Platform::from_str("MacOS", true), Ok(Platform::Macos));
    assert!(Platform::from_str("MacOS", false).is_err());
    assert_eq!(Platform::from_str("android", false), Ok(Platform::Android));
    assert_eq!(Platform::from_str("beos", true), Err("invalid variant: beos".to_string()));
}

fn cli(platform: Platform, all: bool, layout: Option<&str>) -> Cli {
    Cli {
        platform,
        out_dir: "out".to_string(),
        layout: layout.map(|s| s.to_string()),
        layout_variant: None,
        all,
        android_kl: None,
        android_kcm: None,
    }
}

#[test]
fn cli_tasks() {
    assert_eq!(task_of(&cli(Platform::Linux, true, None)), Ok(Task::All(Platform::Linux)));
    assert_eq!(task_of(&cli(Platform::Android, true, None)), Err(CliError::AllUnsupported));
    assert_eq!(task_of(&cli(Platform::Linux, false, None)), Err(CliError::MissingLayout));
    assert_eq!(
        task_of(&cli(Platform::Windows, false, Some("00000409"))),
        Ok(Task::One { platform: Platform::Windows, layout: "00000409".to_string() })
    );
    let mut c = cli(Platform::Android, false, Some("generic"));
    assert_eq!(android_inputs(&c), Err(CliError::MissingAndroidKl));
    c.android_kl = Some("Generic.kl".to_string());
    assert_eq!(android_inputs(&c), Err(CliError::MissingAndroidKcm));
    c.android_kcm = Some("Generic.kcm".to_string());
    assert_eq!(
        android_inputs(&c),
        Ok(("Generic.kl".to_string(), "Generic.kcm".to_string()))
    );
    assert_eq!(file_stem("us", Some("intl")), "us+intl");
    assert_eq!(file_stem("us", Some("")), "us");
    assert_eq!(file_stem("us", None), "us");
}

#[test]
fn lookup_known_code() {
    let k = lookup("KeyA").unwrap();
    assert_eq!(k.windows_scancode, 0x1E);
    assert_eq!(k.macos_keycode, 0);
    assert_eq!(k.linux_keycode, 30);
}

#[test]
fn lookup_unknown_code_returns_none() {
    assert!(lookup("Nope").is_none());
}

#[test]
fn table_covers_expected_count() {
    // Every row of the table, including the Intl* keys.
    assert_eq!(w3c_keys().len(), 51);
}

#[test]
fn codes_are_unique() {
    let codes = all_codes();
    let mut sorted = codes.clone();
    sorted.sort();
    let mut deduped = sorted.clone();
    deduped.dedup();
    assert_eq!(sorted.len(), deduped.len(), "duplicate W3C codes in table");
}

#[test]
fn batch_jobs_list_layouts_then_their_variants() {
    let ev = EvdevList::parse(LST_SAMPLE).unwrap();
    let jobs = ev.batch_jobs();
    let expected: Vec<(String, Option<String>)> = vec![
        ("us".to_string(), None),
        ("us".to_string(), Some("intl".to_string())),
        ("fr".to_string(), None),
        ("fr".to_string(), Some("nodeadkeys".to_string())),
        ("de".to_string(), None),
        ("de".to_string(), Some("deadacute".to_string())),
    ];
    assert_eq!(jobs, expected);
}

#[test]
fn index_key_is_platform_slash_file_stem() {
    for variant in [None, Some(""), Some("intl")] {
        assert_eq!(
            KeymapDb::index_key("linux", "us", variant),
            format!("linux/{}", file_stem("us", variant))
        );
    }
    assert_eq!(file_stem("us", Some("intl")), "us+intl");
    assert_eq!(file_stem("us", Some("")), "us");
}

#[test]
fn cli_platform_values_read_back() {
    let all = [
        ("windows", Platform::Windows),
        ("macos", Platform::Macos),
        ("linux", Platform::Linux),
        ("android", Platform::Android),
    ];
    for (name, p) in all {
        assert_eq!(Platform::from_str(name, false), Ok(p));
        assert_eq!(Platform::from_str(name, true), Ok(p));
        assert_eq!(Platform::from_str(&name.to_uppercase(), true), Ok(p));
    }
}

#[test]
fn variants_by_layout_sorts_layouts() {
    let ev = EvdevList::parse(LST_SAMPLE).unwrap();
    let map = ev.variants_by_layout();
    assert_eq!(map.keys(), vec!["de".to_string(), "fr".to_string(), "us".to_string()]);
    assert_eq!(map.get("us").unwrap()[0].variant, "intl");
}
