use bedrock_protocol::versions::{
    describe, is_translatable, name_of, nearest_translatable_below, translatable, versions,
};

#[test]
fn every_translatable_protocol_has_a_name() {
    for protocol in translatable() {
        assert!(
            name_of(protocol).is_some(),
            "protocol {protocol} is translatable but unnamed"
        );
    }
}

#[test]
fn version_table_is_sorted_and_unique() {
    let table = versions();
    for pair in table.windows(2) {
        assert!(
            pair[0].protocol > pair[1].protocol,
            "the version table must be strictly descending: {} then {}",
            pair[0].protocol,
            pair[1].protocol
        );
    }
}

#[test]
fn names_below_924_match_gophertunnel_history_not_1_25_x() {
    for (protocol, name) in [
        (898, "1.21.130"),
        (860, "1.21.124"),
        (859, "1.21.120"),
        (844, "1.21.111"),
        (827, "1.21.100"),
        (819, "1.21.93"),
        (818, "1.21.90"),
        (800, "1.21.80"),
        (786, "1.21.70"),
        (776, "1.21.60"),
        (766, "1.21.50"),
        (748, "1.21.40"),
        (729, "1.21.30"),
    ] {
        assert_eq!(name_of(protocol), Some(name), "protocol {protocol}");
        assert!(
            !name_of(protocol).unwrap().starts_with("1.25."),
            "gophertunnel's history has no 1.25.x release; the real line \
             runs 1.21.130 -> 1.26.0 with nothing between them",
        );
    }
}

#[test]
fn nearest_below_picks_the_right_neighbour() {
    assert_eq!(nearest_translatable_below(2200), Some(2169));
    assert_eq!(nearest_translatable_below(2168), Some(2168));
    assert_eq!(nearest_translatable_below(1000), Some(975));
    assert_eq!(nearest_translatable_below(900), Some(898));
    assert_eq!(nearest_translatable_below(859), Some(859));
    assert_eq!(nearest_translatable_below(800), None);
}

#[test]
fn describe_names_known_protocols_and_numbers_the_rest() {
    assert_eq!(describe(2168), "1.26.40 (protocol 2168)");
    assert_eq!(describe(2169), "1.26.45 (protocol 2169)");
    assert_eq!(describe(859), "1.21.120 (protocol 859)");
    assert_eq!(describe(12345), "protocol 12345");
    assert_eq!(describe(0), "protocol 0");
}

#[test]
fn translatable_set_is_exactly_the_documented_protocols() {
    assert_eq!(translatable(), vec![859, 860, 898, 924, 944, 975, 1001, 2168, 2169]);
    for p in [859u32, 860, 898, 924, 944, 975, 1001, 2168, 2169] {
        assert!(is_translatable(p));
    }
    for p in [844u32, 2170, 0, 729, 1000] {
        assert!(!is_translatable(p));
    }
}

#[test]
fn nearest_below_of_a_translatable_protocol_is_itself() {
    for p in translatable() {
        assert_eq!(nearest_translatable_below(p), Some(p));
    }
    assert_eq!(nearest_translatable_below(u32::MAX), Some(2169));
    assert_eq!(nearest_translatable_below(0), None);
}
