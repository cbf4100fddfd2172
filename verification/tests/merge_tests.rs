use united_flarmnet::merge::{merge, merge_datasets};
use united_flarmnet::ogn;
use united_flarmnet::record::Record;
use united_flarmnet::weglide;

fn record(
    flarm_id: &str,
    pilot_name: &str,
    airfield: &str,
    plane_type: &str,
    registration: &str,
    call_sign: &str,
    frequency: &str,
) -> Record {
    Record {
        flarm_id: flarm_id.to_string(),
        pilot_name: pilot_name.to_string(),
        airfield: airfield.to_string(),
        plane_type: plane_type.to_string(),
        registration: registration.to_string(),
        call_sign: call_sign.to_string(),
        frequency: frequency.to_string(),
    }
}

fn ogn_device(device_id: &str, aircraft_model: &str, registration: &str, cn: &str) -> ogn::Device {
    ogn::Device {
        device_id: device_id.to_string(),
        aircraft_model: aircraft_model.to_string(),
        registration: registration.to_string(),
        cn: cn.to_string(),
    }
}

fn weglide_device(
    id: &str,
    name: Option<&str>,
    competition_id: Option<&str>,
    aircraft_name: Option<&str>,
    until: Option<i64>,
    user_name: &str,
) -> weglide::Device {
    weglide::Device {
        id: id.to_string(),
        name: name.map(|s| s.to_string()),
        competition_id: competition_id.map(|s| s.to_string()),
        aircraft: aircraft_name.map(|s| weglide::AircraftRef { id: 1, name: s.to_string() }),
        until,
        user: weglide::UserRef { id: 1, name: user_name.to_string() },
    }
}

#[test]
fn test_merge_seeds_from_ogn_only() {
    let merged = merge(None, Some(ogn_device("DDA5BA", "LS 6", "D-0816", "XY")), None).unwrap();
    assert_eq!(merged, record("DDA5BA", "", "", "LS 6", "D-0816", "XY", ""));
}

#[test]
fn test_merge_flarmnet_overwrites_on_matching_call_sign() {
    let f = record("DDA5BA", "John Doe", "EDKA", "", "", "XY", "123.456");
    let o = ogn_device("DDA5BA", "LS 6", "D-0816", "XY");
    let merged = merge(Some(f), Some(o), None).unwrap();
    // Identity confirmed: biographical fields come from FlarmNet, the
    // populated registration and plane type stay.
    assert_eq!(merged, record("DDA5BA", "John Doe", "EDKA", "LS 6", "D-0816", "XY", "123.456"));
}

#[test]
fn test_merge_identity_gate_blocks_flarmnet() {
    let f = record("DDA5BA", "John Doe", "EDKA", "ASW 28", "D-1234", "AB", "123.456");
    let o = ogn_device("DDA5BA", "LS 6", "D-0816", "XY");
    let merged = merge(Some(f), Some(o), None).unwrap();
    // Call signs differ: none of FlarmNet's fields reach the record.
    assert_eq!(merged, record("DDA5BA", "", "", "LS 6", "D-0816", "XY", ""));
}

#[test]
fn test_merge_registration_precedence() {
    // Seeding source has registration "X"; WeGlide brings "Y" with a
    // matching call sign: the earlier non-empty registration wins.
    let o = ogn_device("DDA5BA", "LS 6", "X", "XY");
    let w = weglide_device("DDA5BA", Some("Y"), Some("XY"), Some("LS 6a"), None, "Jane Doe");
    let merged = merge(None, Some(o), Some(w)).unwrap();
    assert_eq!(merged.registration, "X");
    assert_eq!(merged.plane_type, "LS 6");
    // The pilot name is biographical and comes from WeGlide.
    assert_eq!(merged.pilot_name, "Jane Doe");
}

#[test]
fn test_merge_weglide_fills_empty_fields() {
    let o = ogn_device("DDA5BA", "", "", "XY");
    let w = weglide_device("DDA5BA", Some("D-0816"), Some("XY"), Some("LS 6"), None, "Jane Doe");
    let merged = merge(None, Some(o), Some(w)).unwrap();
    assert_eq!(merged, record("DDA5BA", "Jane Doe", "", "LS 6", "D-0816", "XY", ""));
}

#[test]
fn test_merge_weglide_gate_blocks_on_other_call_sign() {
    let o = ogn_device("DDA5BA", "LS 6", "D-0816", "XY");
    let w = weglide_device("DDA5BA", Some("D-9999"), Some("ZZ"), Some("LS 8"), None, "Jane Doe");
    let merged = merge(None, Some(o), Some(w)).unwrap();
    assert_eq!(merged, record("DDA5BA", "", "", "LS 6", "D-0816", "XY", ""));
}

#[test]
fn test_merge_nothing_is_nothing() {
    assert!(merge(None, None, None).is_none());
}

#[test]
fn test_merge_datasets_is_deterministic() {
    let make_inputs = || {
        let f = vec![
            record("AA0001", "John Doe", "EDKA", "", "", "XY", "123.456"),
            record("AA0002", "Jane Roe", "EDDF", "DG-800", "D-4711", "JR", ""),
        ];
        let o = vec![
            ogn_device("aa0001", "LS 6", "D-0816", "XY"),
            ogn_device("AA0003", "ASK 21", "D-5678", ""),
        ];
        let w = vec![weglide_device(
            "AA0002",
            Some("D-0007"),
            Some("JR"),
            Some("DG-808"),
            None,
            "Jane R.",
        )];
        (f, o, w)
    };
    let (f1, o1, w1) = make_inputs();
    let (f2, o2, w2) = make_inputs();
    let r1 = merge_datasets(f1, o1, w1);
    let r2 = merge_datasets(f2, o2, w2);
    assert_eq!(r1, r2);
}

#[test]
fn test_merge_datasets_orders_by_id_value() {
    let f = vec![
        record("00000A", "A", "", "", "", "", ""),
        record("000002", "B", "", "", "", "", ""),
        record("000010", "C", "", "", "", "", ""),
    ];
    let merged = merge_datasets(f, vec![], vec![]);
    let ids: Vec<&str> = merged.iter().map(|r| r.flarm_id.as_str()).collect();
    assert_eq!(ids, vec!["000002", "00000A", "000010"]);
}

#[test]
fn test_merge_datasets_keys_are_case_insensitive() {
    // Upper-case and lower-case forms of one identification code are
    // one merge key.
    let f = vec![record("dda5ba", "John Doe", "EDKA", "", "", "XY", "")];
    let o = vec![ogn_device("DDA5BA", "LS 6", "D-0816", "XY")];
    let merged = merge_datasets(f, o, vec![]);
    assert_eq!(merged.len(), 1);
    assert_eq!(merged[0].pilot_name, "John Doe");
    assert_eq!(merged[0].registration, "D-0816");
}

#[test]
fn test_merge_datasets_last_record_wins_per_source() {
    // Two records with one key in one source: the later one stands,
    // as in a map built by insertion.
    let f = vec![
        record("AA0001", "First", "", "", "", "", ""),
        record("AA0001", "Second", "", "", "", "", ""),
    ];
    let merged = merge_datasets(f, vec![], vec![]);
    assert_eq!(merged.len(), 1);
    assert_eq!(merged[0].pilot_name, "Second");
}

#[test]
fn test_merge_datasets_holds_every_source_key_once() {
    let f = vec![record("AA0001", "John Doe", "", "", "", "", "")];
    let o = vec![
        ogn_device("AA0002", "LS 6", "D-0816", "XY"),
        ogn_device("aa0001", "", "", ""),
    ];
    let w = vec![weglide_device("AA0003", None, None, None, None, "Jane Doe")];
    let merged = merge_datasets(f, o, w);
    let ids: Vec<String> = merged.iter().map(|r| r.flarm_id.to_lowercase()).collect();
    assert_eq!(ids, vec!["aa0001", "aa0002", "aa0003"]);
}

#[test]
fn test_merge_datasets_airfield_collapse() {
    let f = vec![record("AA0001", "John Doe", "EDKA", "", "EDKA", "XY", "")];
    let merged = merge_datasets(f, vec![], vec![]);
    assert_eq!(merged.len(), 1);
    assert_eq!(merged[0].airfield, "");
    assert_eq!(merged[0].registration, "EDKA");
}
