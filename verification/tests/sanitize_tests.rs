use united_flarmnet::record::Record;
use united_flarmnet::sanitize::{
    has_data, sanitize_dataset_for_lx, sanitize_dataset_for_xcsoar, sanitize_for_lx,
    sanitize_for_xcsoar, sanitize_record_for_lx, sanitize_record_for_xcsoar,
};

fn record(
    flarm_id: &str,
    pilot_name: &str,
    airfield: &str,
    plane_type: &str,
    registration: &str,
    call_sign: &str,
    frequency: &str,
) -> Record {
    Record {
        flarm_id: flarm_id.to_string(),
        pilot_name: pilot_name.to_string(),
        airfield: airfield.to_string(),
        plane_type: plane_type.to_string(),
        registration: registration.to_string(),
        call_sign: call_sign.to_string(),
        frequency: frequency.to_string(),
    }
}

#[test]
fn test_sanitize_for_lx() {
    assert_eq!(sanitize_for_lx("foo"), "foo");
    assert_eq!(sanitize_for_lx("Müller"), "Mueller");
    assert_eq!(sanitize_for_lx("Pociūnai"), "Pociunai");
    assert_eq!(sanitize_for_lx("😂"), "joy");
}

#[test]
fn test_sanitize_for_xcsoar() {
    assert_eq!(sanitize_for_xcsoar("foo"), "foo");
    assert_eq!(sanitize_for_xcsoar("Müller"), "Müller");
    assert_eq!(sanitize_for_xcsoar("Pociūnai"), "Pociunai");
    assert_eq!(sanitize_for_xcsoar("😂"), "joy");
}

#[test]
fn test_sanitize_german_transliterations() {
    assert_eq!(sanitize_for_lx("äöüÄÖÜß"), "aeoeueAeOeUess");
    assert_eq!(sanitize_for_lx("Straße"), "Strasse");
}

#[test]
fn test_narrow_variant_keeps_latin1_byte_for_byte() {
    let latin1 = "Dörte façade ±½";
    assert_eq!(sanitize_for_xcsoar(latin1), latin1);
}

#[test]
fn test_broad_variant_is_idempotent() {
    for input in ["foo", "Müller", "Pociūnai", "😂", "äöüÄÖÜß", "\u{7f}"] {
        let once = sanitize_for_lx(input);
        assert_eq!(sanitize_for_lx(&once), once);
    }
}

#[test]
fn test_del_character_maps_to_empty_in_broad_variant() {
    // The transliteration drops the DEL character; text strictly below
    // it passes through unchanged.
    assert_eq!(sanitize_for_lx("\u{7f}"), "");
    assert_eq!(sanitize_for_lx("a\u{7f}b"), "ab");
    assert_eq!(sanitize_for_lx("a\u{7e}b"), "a\u{7e}b");
}

#[test]
fn test_has_data() {
    let empty = record("ABCDEF", "", "", "", "", "", "");
    assert!(!has_data(&empty));
    let with_pilot = record("ABCDEF", "John", "", "", "", "", "");
    assert!(has_data(&with_pilot));
    let with_frequency = record("", "", "", "", "", "", "123.456");
    assert!(has_data(&with_frequency));
}

#[test]
fn test_sanitize_record_for_lx_fields() {
    let input = record("ABCDEF", "Müller", "Pociūnai", "ASW 28", "D-1234", "XY", "123.456");
    let output = sanitize_record_for_lx(&input).unwrap();
    assert_eq!(output.flarm_id, "ABCDEF");
    assert_eq!(output.pilot_name, "Mueller");
    assert_eq!(output.airfield, "Pociunai");
    assert_eq!(output.plane_type, "ASW 28");
    assert_eq!(output.registration, "D-1234");
    assert_eq!(output.call_sign, "XY");
    assert_eq!(output.frequency, "123.456");
}

#[test]
fn test_sanitize_record_for_xcsoar_fields() {
    let input = record("ABCDEF", "Müller", "Pociūnai", "", "", "", "");
    let output = sanitize_record_for_xcsoar(&input).unwrap();
    assert_eq!(output.pilot_name, "Müller");
    assert_eq!(output.airfield, "Pociunai");
}

#[test]
fn test_sanitize_dataset_drops_records_without_information() {
    let records = vec![
        record("AA0001", "Müller", "", "", "", "", ""),
        record("", "John", "", "", "", "", ""),
        record("AA0002", "", "", "", "", "", ""),
        record("AA0003", "", "", "", "D-1234", "", ""),
    ];
    let lx = sanitize_dataset_for_lx(&records);
    let lx_fields: Vec<(&str, &str)> = lx
        .iter()
        .map(|r| (r.flarm_id.as_str(), r.pilot_name.as_str()))
        .collect();
    assert_eq!(lx_fields, vec![("AA0001", "Mueller"), ("AA0003", "")]);
    let xcsoar = sanitize_dataset_for_xcsoar(&records);
    let xcsoar_fields: Vec<(&str, &str)> = xcsoar
        .iter()
        .map(|r| (r.flarm_id.as_str(), r.pilot_name.as_str()))
        .collect();
    assert_eq!(xcsoar_fields, vec![("AA0001", "Müller"), ("AA0003", "")]);
}

#[test]
fn test_sanitize_record_drops_empty_id() {
    let input = record("", "John", "EDKA", "", "", "", "");
    assert!(sanitize_record_for_lx(&input).is_none());
    assert!(sanitize_record_for_xcsoar(&input).is_none());
}

#[test]
fn test_sanitize_record_drops_all_empty_fields() {
    let input = record("ABCDEF", "", "", "", "", "", "");
    assert!(sanitize_record_for_lx(&input).is_none());
    assert!(sanitize_record_for_xcsoar(&input).is_none());
}
