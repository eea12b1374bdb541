use bedrock_protocol::report::{enable_report, parse_disconnect, printable_head};

#[test]
fn a_translatable_server_goes_active() {
    let r = enable_report(1001);
    assert!(r.active);
    assert_eq!(r.lines, vec!["server speaks 1.26.30 (protocol 1001)".to_string()]);
}

#[test]
fn an_untranslatable_server_stays_inactive_and_says_why() {
    let r = enable_report(844);
    assert!(!r.active);
    assert_eq!(r.lines.len(), 3);
    assert_eq!(r.lines[0], "server speaks 1.21.111 (protocol 844)");
    assert!(r.lines[1].starts_with("1.21.111 (protocol 844) is not a version crossbind can translate"));
    assert_eq!(
        r.lines[2],
        "translatable server versions: 1.21.120 (protocol 859), 1.21.124 (protocol 860), 1.21.130 (protocol 898), \
         1.26.0 (protocol 924), 1.26.10 (protocol 944), 1.26.20 (protocol 975), 1.26.30 (protocol 1001), \
         1.26.40 (protocol 2168), 1.26.45 (protocol 2169)"
    );
}

#[test]
fn disconnect_bodies_are_read_or_shown_raw() {
    assert_eq!(parse_disconnect(&[1, 2, b'h', b'i']), Some((true, b"hi".to_vec())));
    assert_eq!(parse_disconnect(&[0, 5, b'h']), None);
    assert_eq!(printable_head(&[b'a', 0, b' ', 0xff]), "a. .");
    assert_eq!(printable_head(&[b'x'; 300]).len(), 240);
}
