use bedrock_protocol::config::{
    blob_cache_enabled, describe_layout, normalize, parse_enabled, parse_loop_count,
    play_sound_loop_label, trace_limit_of,
};

#[test]
fn only_an_explicit_off_stops_the_translation() {
    assert!(parse_enabled(None));
    assert!(parse_enabled(Some("")));
    assert!(parse_enabled(Some("on")));
    assert!(parse_enabled(Some("probe")));
    assert!(!parse_enabled(Some("off")));
    assert!(!parse_enabled(Some(" OFF ")));
    assert!(!parse_enabled(Some("drop")));
}

#[test]
fn every_off_word_is_recognised_case_and_space_insensitively() {
    for w in ["0", "false", "FALSE", "\tCancel\n", "Drop", "\u{3000}off\u{a0}"] {
        assert!(!parse_enabled(Some(w)), "{w:?}");
    }
    assert!(parse_enabled(Some("of f")));
    assert!(parse_enabled(Some("no")));
}

#[test]
fn the_blob_cache_is_on_unless_switched_off() {
    assert!(blob_cache_enabled(""));
    assert!(blob_cache_enabled("on"));
    assert!(blob_cache_enabled("drop"));
    for w in ["off", "0", "false", "no", " No "] {
        assert!(!blob_cache_enabled(w), "{w:?}");
    }
}

#[test]
fn normalize_trims_and_lowers_only_ascii_letters() {
    assert_eq!(normalize("  AbC\u{c9} \r\n").into_iter().collect::<String>(), "abc\u{c9}");
    assert_eq!(normalize("   ").len(), 0);
}

#[test]
fn describe_layout_names_the_setting() {
    assert!(describe_layout(true).contains("translated"));
    assert!(describe_layout(false).contains("dropped"));
}

#[test]
fn loop_count_parses_signed_decimals_and_defaults_to_once() {
    assert_eq!(parse_loop_count(None), 0);
    assert_eq!(parse_loop_count(Some(" 3 ")), 3);
    assert_eq!(parse_loop_count(Some("+7")), 7);
    assert_eq!(parse_loop_count(Some("-1")), -1);
    assert_eq!(parse_loop_count(Some("-2147483648")), i32::MIN);
    assert_eq!(parse_loop_count(Some("2147483647")), i32::MAX);
    assert_eq!(parse_loop_count(Some("2147483648")), 0);
    assert_eq!(parse_loop_count(Some("-")), 0);
    assert_eq!(parse_loop_count(Some("-+1")), 0);
    assert_eq!(parse_loop_count(Some("many")), 0);
}

#[test]
fn loop_label_warns_about_negative_counts() {
    assert_eq!(play_sound_loop_label(0), "0");
    assert_eq!(play_sound_loop_label(12), "12");
    assert_eq!(play_sound_loop_label(-1), "-1 (negative: every sound repeats forever)");
    assert_eq!(play_sound_loop_label(i32::MIN), "-2147483648 (negative: every sound repeats forever)");
}

#[test]
fn tracing_is_off_unless_switched_on() {
    assert_eq!(trace_limit_of(None, Some("5")), 0);
    assert_eq!(trace_limit_of(Some("0"), Some("5")), 0);
    assert_eq!(trace_limit_of(Some("maybe"), None), 0);
    assert_eq!(trace_limit_of(Some(" ON "), None), 200_000);
    assert_eq!(trace_limit_of(Some("Yes"), Some(" 12 ")), 12);
    assert_eq!(trace_limit_of(Some("1"), Some("+7")), 7);
    assert_eq!(trace_limit_of(Some("true"), Some("0")), 200_000);
    assert_eq!(trace_limit_of(Some("true"), Some("many")), 200_000);
    assert_eq!(trace_limit_of(Some("true"), Some("4294967296")), 200_000);
    assert_eq!(trace_limit_of(Some("true"), Some("4294967295")), u32::MAX);
}
