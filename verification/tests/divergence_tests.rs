use x4mp::divergence::{
    compute_divergence, deltas_fit_check, samples_of_log, worldsnap_fields, DivergenceError, DivergenceReport, DivergenceRow, Snapshot,
    WorldsnapFields,
};
use x4mp::proto::{Authority, EventEnvelope};

fn snap(sender: u128, seq: u64, t: f64, ships: i64, stations: i64, sector: &str) -> Snapshot {
    Snapshot {
        sender,
        snap_seq: seq,
        t_bits: t.to_bits(),
        sector: sector.to_string(),
        ships,
        stations,
    }
}

// Largest |t_a - t_b| over the aligned rows.
fn max_time_skew(report: &DivergenceReport) -> f64 {
    report.rows.iter().fold(0.0_f64, |m, r| {
        m.max((f64::from_bits(r.t_a_bits) - f64::from_bits(r.t_b_bits)).abs())
    })
}

#[test]
fn aligns_by_seq_and_tracks_max_deltas() {
    let a = 1u128;
    let b = 2u128;
    let snaps = vec![
        snap(a, 1, 10.0, 100, 13, "Black Hole Sun IV"),
        snap(b, 1, 10.0, 100, 13, "Black Hole Sun IV"),
        snap(a, 2, 25.0, 104, 13, "Black Hole Sun IV"),
        snap(b, 2, 25.0, 101, 13, "Black Hole Sun IV"),
        snap(a, 3, 40.0, 110, 13, "Black Hole Sun IV"),
        snap(b, 3, 40.0, 102, 12, "Black Hole Sun IV"),
    ];

    let report = compute_divergence(&snaps).unwrap();
    assert_eq!(report.rows.len(), 3);
    // seq 3: |110-102| = 8 ships, |13-12| = 1 station.
    assert_eq!(report.max_ship_delta, 8);
    assert_eq!(report.max_station_delta, 1);
    assert!(!report.any_sector_mismatch);
    assert_eq!(max_time_skew(&report), 0.0);
}

#[test]
fn detects_sector_mismatch_and_time_skew() {
    let a = 1u128;
    let b = 2u128;
    let snaps = vec![
        snap(a, 1, 10.0, 50, 5, "Argon Prime"),
        snap(b, 1, 13.0, 50, 5, "Hatikvah's Choice I"),
    ];
    let report = compute_divergence(&snaps).unwrap();
    assert!(report.any_sector_mismatch);
    assert!((max_time_skew(&report) - 3.0).abs() < 1e-9);
}

#[test]
fn errors_without_two_senders() {
    let a = 1u128;
    let snaps = vec![snap(a, 1, 10.0, 50, 5, "Argon Prime")];
    assert_eq!(
        compute_divergence(&snaps),
        Err(DivergenceError::NotTwoSenders(1))
    );
}

#[test]
fn errors_when_no_overlapping_seq() {
    let a = 1u128;
    let b = 2u128;
    let snaps = vec![
        snap(a, 1, 10.0, 50, 5, "Argon Prime"),
        snap(b, 2, 25.0, 50, 5, "Argon Prime"),
    ];
    assert_eq!(compute_divergence(&snaps), Err(DivergenceError::NoOverlap));
}

#[test]
fn errors_on_empty_input() {
    assert_eq!(compute_divergence(&[]), Err(DivergenceError::NotTwoSenders(0)));
}

#[test]
fn picks_the_two_largest_streams_and_orders_rows() {
    // Sender 9 has the most samples, senders 3 and 5 tie: the smaller id wins.
    let snaps = vec![
        snap(9, 4, 1.0, 10, 1, "S"),
        snap(5, 4, 1.0, 20, 1, "S"),
        snap(3, 2, 1.0, 7, 1, "S"),
        snap(9, 2, 1.0, 11, 1, "S"),
        snap(9, 3, 1.0, 12, 1, "S"),
        snap(3, 4, 1.0, 30, 2, "T"),
        snap(5, 2, 1.0, 40, 1, "S"),
    ];
    let report = compute_divergence(&snaps).unwrap();
    assert_eq!(report.sender_a, 9);
    assert_eq!(report.sender_b, 3);
    let seqs: Vec<u64> = report.rows.iter().map(|r| r.snap_seq).collect();
    assert_eq!(seqs, vec![2, 4]);
    assert_eq!(report.rows[0].ships_a, 11);
    assert_eq!(report.rows[0].ships_b, 7);
    assert_eq!(report.max_ship_delta, 20);
    assert_eq!(report.max_station_delta, 1);
    assert!(report.any_sector_mismatch);
}

#[test]
fn later_sample_with_same_seq_wins() {
    let snaps = vec![
        snap(1, 1, 1.0, 5, 0, "S"),
        snap(2, 1, 1.0, 5, 0, "S"),
        snap(1, 1, 2.0, 9, 0, "S"),
    ];
    let report = compute_divergence(&snaps).unwrap();
    assert_eq!(report.rows.len(), 1);
    assert_eq!(report.rows[0].ships_a, 9);
    assert_eq!(report.max_ship_delta, 4);
}

#[test]
fn row_deltas_and_mismatch() {
    let row = DivergenceRow {
        snap_seq: 1,
        t_a_bits: 0,
        t_b_bits: 0,
        sector_a: "A".into(),
        sector_b: "B".into(),
        ships_a: 3,
        ships_b: 10,
        stations_a: -1,
        stations_b: 4,
    };
    assert_eq!(row.ship_delta(), 7);
    assert_eq!(row.station_delta(), 5);
    assert!(row.sector_mismatch());
}

#[test]
fn divergence_error_messages() {
    assert_eq!(
        DivergenceError::NotTwoSenders(1).describe(),
        "expected worldsnap streams from exactly 2 instances, found 1 (run the snapshot toggle on both instances against the same server)"
    );
    assert_eq!(
        DivergenceError::NotTwoSenders(1234).describe(),
        "expected worldsnap streams from exactly 2 instances, found 1234 (run the snapshot toggle on both instances against the same server)"
    );
    assert_eq!(
        DivergenceError::NoOverlap.describe(),
        "the two instances share no snapshot seq to compare"
    );
}

fn envelope(event_type: &str, sender: u128) -> EventEnvelope {
    EventEnvelope {
        v: 1,
        event_type: event_type.into(),
        session_id: 0,
        seq: 7,
        timestamp_sim_bits: 0,
        sender_id: sender,
        authority: Authority::Host,
        payload: "{}".into(),
    }
}

#[test]
fn worldsnap_samples_need_type_and_ships() {
    let full = WorldsnapFields {
        ships: Some(12),
        seq: Some(3),
        t_bits: Some(4.5f64.to_bits()),
        sector: Some("Argon Prime".into()),
        stations: Some(2),
    };
    let s = Snapshot::from_worldsnap(&envelope("spike.worldsnap", 42), full.clone()).unwrap();
    assert_eq!(s, snap(42, 3, 4.5, 12, 2, "Argon Prime"));
    assert_eq!(Snapshot::from_worldsnap(&envelope("session.ping", 42), full), None);
    let control = WorldsnapFields { ships: None, seq: Some(1), t_bits: None, sector: None, stations: None };
    assert_eq!(Snapshot::from_worldsnap(&envelope("spike.worldsnap", 42), control), None);
    let sparse = WorldsnapFields { ships: Some(1), seq: None, t_bits: None, sector: None, stations: None };
    let s = Snapshot::from_worldsnap(&envelope("spike.worldsnap", 1), sparse).unwrap();
    assert_eq!(s, snap(1, 0, 0.0, 1, -1, ""));
}

#[test]
fn overflowing_deltas_are_detected() {
    let ok = vec![snap(1, 1, 0.0, 5, 0, "S"), snap(2, 1, 0.0, 9, 0, "S")];
    assert!(deltas_fit_check(&ok));
    let bad = vec![snap(1, 1, 0.0, i64::MAX, 0, "S"), snap(2, 1, 0.0, -1, 0, "S")];
    assert!(!deltas_fit_check(&bad));
    let edge = vec![snap(1, 1, 0.0, i64::MAX, 0, "S"), snap(2, 1, 0.0, 0, i64::MIN, "S")];
    assert!(!deltas_fit_check(&edge));
    // Unaligned extreme values do not matter.
    let unaligned = vec![
        snap(1, 1, 0.0, i64::MAX, 0, "S"),
        snap(2, 2, 0.0, i64::MIN, 0, "S"),
        snap(1, 3, 0.0, 1, 0, "S"),
        snap(2, 3, 0.0, 2, 0, "S"),
    ];
    assert!(deltas_fit_check(&unaligned));
    assert_eq!(compute_divergence(&unaligned).unwrap().max_ship_delta, 1);
}

#[test]
fn samples_of_other_instances_do_not_change_the_report() {
    let snaps = vec![
        snap(9, 4, 1.0, 10, 1, "S"),
        snap(5, 4, 1.0, 20, 1, "S"),
        snap(3, 2, 1.0, 7, 1, "S"),
        snap(9, 2, 1.0, 11, 1, "S"),
        snap(9, 3, 1.0, 12, 1, "S"),
        snap(3, 4, 1.0, 30, 2, "T"),
        snap(5, 2, 1.0, 40, 1, "S"),
    ];
    let full = compute_divergence(&snaps).unwrap();
    let kept: Vec<Snapshot> = snaps
        .iter()
        .filter(|s| s.sender == full.sender_a || s.sender == full.sender_b)
        .cloned()
        .collect();
    assert_eq!(kept.len(), 5);
    assert_eq!(compute_divergence(&kept).unwrap(), full);
}

#[test]
fn first_instance_has_the_most_samples() {
    // Sender 7 sends three samples, 8 two, 2 one: 7 then 8, whatever the ids.
    let snaps = vec![
        snap(2, 1, 1.0, 1, 1, "S"),
        snap(8, 1, 1.0, 2, 1, "S"),
        snap(7, 1, 1.0, 3, 1, "S"),
        snap(8, 2, 1.0, 2, 1, "S"),
        snap(7, 2, 1.0, 3, 1, "S"),
        snap(7, 3, 1.0, 3, 1, "S"),
    ];
    let report = compute_divergence(&snaps).unwrap();
    assert_eq!(report.sender_a, 7);
    assert_eq!(report.sender_b, 8);
    assert_ne!(report.sender_a, report.sender_b);
    assert_eq!(report.rows.len(), 2);
}

fn entry(event_type: &str, sender: u128, payload: &str) -> EventEnvelope {
    let mut e = envelope(event_type, sender);
    e.payload = payload.into();
    e
}

#[test]
fn worldsnap_fields_are_read_from_the_payload_text() {
    let f = worldsnap_fields(
        r#"{"ships":12,"seq":3,"t":4.5,"sector":"Argon Prime","stations":2,"extra":true}"#,
    );
    assert_eq!(f.ships, Some(12));
    assert_eq!(f.seq, Some(3));
    assert_eq!(f.t_bits, Some(4.5f64.to_bits()));
    assert_eq!(f.sector.as_deref(), Some("Argon Prime"));
    assert_eq!(f.stations, Some(2));
    // Wrong types and missing keys read as nothing; an integer time is a number.
    let g = worldsnap_fields(r#"{"ships":"12","seq":-1,"t":7,"sector":5}"#);
    assert_eq!(g.ships, None);
    assert_eq!(g.seq, None);
    assert_eq!(g.t_bits, Some(7.0f64.to_bits()));
    assert_eq!(g.sector, None);
    assert_eq!(g.stations, None);
    // Text that is not JSON has no fields.
    let h = worldsnap_fields("not json");
    assert_eq!(h, WorldsnapFields { ships: None, seq: None, t_bits: None, sector: None, stations: None });
}

#[test]
fn log_entries_become_samples() {
    let s = Snapshot::from_log_entry(&entry(
        "spike.worldsnap",
        42,
        r#"{"ships":12,"seq":3,"t":4.5,"sector":"Argon Prime","stations":2}"#,
    ))
    .unwrap();
    assert_eq!(s, snap(42, 3, 4.5, 12, 2, "Argon Prime"));
    let sparse = Snapshot::from_log_entry(&entry("spike.worldsnap", 1, r#"{"ships":1}"#)).unwrap();
    assert_eq!(sparse, snap(1, 0, 0.0, 1, -1, ""));
    assert_eq!(Snapshot::from_log_entry(&entry("spike.worldsnap", 1, r#"{"event":"started"}"#)), None);
    assert_eq!(Snapshot::from_log_entry(&entry("session.ping", 1, r#"{"ships":1}"#)), None);
}

#[test]
fn samples_of_a_log_keep_log_order() {
    let log = vec![
        entry("spike.worldsnap", 1, r#"{"event":"started"}"#),
        entry("spike.worldsnap", 2, r#"{"ships":5,"seq":1,"t":1.0,"sector":"A","stations":3}"#),
        entry("session.ping", 2, r#"{"ships":9}"#),
        entry("spike.worldsnap", 1, r#"{"ships":6,"seq":1}"#),
        entry("spike.worldsnap", 2, "not json"),
    ];
    let snaps = samples_of_log(&log);
    assert_eq!(snaps, vec![snap(2, 1, 1.0, 5, 3, "A"), snap(1, 1, 0.0, 6, -1, "")]);
    assert!(samples_of_log(&Vec::new()).is_empty());
}
