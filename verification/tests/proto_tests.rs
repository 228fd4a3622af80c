use x4mp::proto::{normalize_display_name, Authority, EventEnvelope, WsErrorFrame, PROTO_VERSION};

#[test]
fn normalize_display_name_trims_and_collapses() {
    assert_eq!(
        normalize_display_name("  Alice   Bob  ").unwrap(),
        "Alice Bob"
    );
}

#[test]
fn normalize_display_name_rejects_empty() {
    assert_eq!(normalize_display_name("   ").unwrap_err(), "empty");
}

#[test]
fn normalize_display_name_rejects_too_long() {
    assert_eq!(normalize_display_name(&"x".repeat(25)).unwrap_err(), "too_long");
    assert_eq!(normalize_display_name(&"x".repeat(24)).unwrap(), "x".repeat(24));
}

#[test]
fn normalize_display_name_counts_characters_not_bytes() {
    // 24 two-byte characters are accepted.
    let name = "é".repeat(24);
    assert_eq!(normalize_display_name(&name).unwrap(), name);
    assert_eq!(normalize_display_name(&"é".repeat(25)).unwrap_err(), "too_long");
}

#[test]
fn normalize_display_name_collapses_unicode_whitespace() {
    assert_eq!(
        normalize_display_name("\tAlice\u{00A0}\u{3000}Bob\n").unwrap(),
        "Alice Bob"
    );
    assert_eq!(normalize_display_name("\u{2003}\u{2028}").unwrap_err(), "empty");
}

#[test]
fn error_frame_has_version_and_type() {
    let f = WsErrorFrame::new("INVALID_NAME", "Display name is not valid.");
    assert_eq!(f.v, 1);
    assert_eq!(f.frame_type, "error");
    assert_eq!(f.code, "INVALID_NAME");
    assert_eq!(f.message, "Display name is not valid.");
}

#[test]
fn envelope_duplicate_is_equal() {
    let env = EventEnvelope {
        v: 1,
        event_type: "session.ping".into(),
        session_id: 0,
        seq: 1,
        timestamp_sim_bits: 0.0f64.to_bits(),
        sender_id: 0,
        authority: Authority::Client,
        payload: "{\"hello\":\"world\"}".into(),
    };
    assert_eq!(env.duplicate(), env);
    assert_eq!(PROTO_VERSION, 1);
}

#[test]
fn confirmed_name_is_stable() {
    let once = normalize_display_name("  Alice \t  the   Bold ").unwrap();
    assert_eq!(once, "Alice the Bold");
    assert_eq!(normalize_display_name(&once).unwrap(), once);
}

#[test]
fn normalize_display_name_rejects_control_characters() {
    assert_eq!(normalize_display_name("Al\u{7}ice").unwrap_err(), "not_printable");
    assert_eq!(normalize_display_name("Bob\u{7F}").unwrap_err(), "not_printable");
    assert_eq!(normalize_display_name("\u{9B}x").unwrap_err(), "not_printable");
    // Whitespace controls are collapsed away, not refused.
    assert_eq!(normalize_display_name("Al\tice\r\n").unwrap(), "Al ice");
    assert_eq!(normalize_display_name("Zoë 名前").unwrap(), "Zoë 名前");
}

#[test]
fn normalize_display_name_rejects_format_and_private_use_characters() {
    assert_eq!(normalize_display_name("Al\u{200B}ice").unwrap_err(), "not_printable");
    assert_eq!(normalize_display_name("\u{202E}ecilA").unwrap_err(), "not_printable");
    assert_eq!(normalize_display_name("soft\u{AD}hyphen").unwrap_err(), "not_printable");
    assert_eq!(normalize_display_name("tag\u{E0041}").unwrap_err(), "not_printable");
    assert_eq!(normalize_display_name("pua\u{E000}").unwrap_err(), "not_printable");
    assert_eq!(normalize_display_name("pua\u{10FFFD}").unwrap_err(), "not_printable");
    // Neighbours of those ranges print.
    assert_eq!(normalize_display_name("\u{2010}dash\u{2070}").unwrap(), "\u{2010}dash\u{2070}");
    assert_eq!(normalize_display_name("\u{F900}").unwrap(), "\u{F900}");
    // A too-long name is refused as too long before its characters are looked at.
    assert_eq!(normalize_display_name(&"\u{7}".repeat(25)).unwrap_err(), "too_long");
}

#[test]
fn confirmed_names_are_collapsed_and_stable() {
    for raw in ["  Al \t  ice\n", "Bob", " x  y  z ", "\u{3000}名前\u{3000}です "] {
        let n = normalize_display_name(raw).unwrap();
        assert_eq!(normalize_display_name(&n).unwrap(), n);
        assert!(!n.starts_with(char::is_whitespace) && !n.ends_with(char::is_whitespace));
        assert!(!n.contains("  "));
        assert!(n.chars().all(|c| !c.is_whitespace() || c == ' '));
        let len = n.chars().count();
        assert!((1..=24).contains(&len));
    }
}
