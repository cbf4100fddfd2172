use united_flarmnet::record::Record;
use united_flarmnet::serde::{json_dataset, SerializableRecord};

fn record(
    flarm_id: &str,
    pilot_name: &str,
    airfield: &str,
    plane_type: &str,
    registration: &str,
    call_sign: &str,
    frequency: &str,
) -> Record {
    Record {
        flarm_id: flarm_id.to_string(),
        pilot_name: pilot_name.to_string(),
        airfield: airfield.to_string(),
        plane_type: plane_type.to_string(),
        registration: registration.to_string(),
        call_sign: call_sign.to_string(),
        frequency: frequency.to_string(),
    }
}

#[test]
fn test_from_record_keeps_fields() {
    let input = record("ABCDEF", "John Dö", "EDKA", "ASW 28", "D-1234", "XY", "123.456");
    let output = SerializableRecord::from_record(&input).unwrap();
    assert_eq!(output.flarm_id, "ABCDEF");
    assert_eq!(output.pilot_name, "John Dö");
    assert_eq!(output.airfield, "EDKA");
    assert_eq!(output.plane_type, "ASW 28");
    assert_eq!(output.registration, "D-1234");
    assert_eq!(output.call_sign, "XY");
    assert_eq!(output.frequency, "123.456");
}

#[test]
fn test_from_record_keeps_partly_empty_records() {
    let input = record("ABCDEF", "", "", "ASW 28", "D-1234", "", "");
    let output = SerializableRecord::from_record(&input).unwrap();
    assert_eq!(output.flarm_id, "ABCDEF");
    assert_eq!(output.pilot_name, "");
    assert_eq!(output.plane_type, "ASW 28");
    assert_eq!(output.registration, "D-1234");
}

#[test]
fn test_json_dataset_keeps_only_records_worth_emitting() {
    let records = vec![
        record("AA0001", "John Dö", "", "", "", "", ""),
        record("", "Jane", "", "", "", "", ""),
        record("AA0002", "", "", "", "", "", ""),
    ];
    let output = json_dataset(&records);
    assert_eq!(output.len(), 1);
    assert_eq!(output[0].flarm_id, "AA0001");
    assert_eq!(output[0].pilot_name, "John Dö");
}

#[test]
fn test_empty_flarm_id_returns_none() {
    let input = record("", "John Dö", "EDKA", "ASW 28", "D-1234", "XY", "123.456");
    assert!(SerializableRecord::from_record(&input).is_none());
}

#[test]
fn test_all_other_fields_empty_returns_none() {
    let input = record("ABCDEF", "", "", "", "", "", "");
    assert!(SerializableRecord::from_record(&input).is_none());
}
