use united_flarmnet::flarmnet::{to_file, DecodedFile};
use united_flarmnet::ogn;
use united_flarmnet::record::Record;
use united_flarmnet::text::{parse_hex_id, to_lower};
use united_flarmnet::weglide;

fn record(flarm_id: &str, pilot_name: &str) -> Record {
    Record {
        flarm_id: flarm_id.to_string(),
        pilot_name: pilot_name.to_string(),
        airfield: String::new(),
        plane_type: String::new(),
        registration: String::new(),
        call_sign: String::new(),
        frequency: String::new(),
    }
}

fn weglide_device(id: &str, until: Option<i64>) -> weglide::Device {
    weglide::Device {
        id: id.to_string(),
        name: None,
        competition_id: None,
        aircraft: None,
        until,
        user: weglide::UserRef { id: 1, name: "Jane Doe".to_string() },
    }
}

#[test]
fn test_to_file_keeps_decoded_lines() {
    let decoded = DecodedFile {
        version: 28592,
        records: vec![Some(record("AA0001", "A")), None, Some(record("AA0002", "B")), None],
    };
    let file = to_file(decoded);
    assert_eq!(file.version, 28592);
    assert_eq!(file.records, vec![record("AA0001", "A"), record("AA0002", "B")]);
}

#[test]
fn test_ogn_device_conversion() {
    let device = ogn::Device {
        device_id: "DDA5BA".to_string(),
        aircraft_model: "HPH 304CZ-17".to_string(),
        registration: "OK-7777".to_string(),
        cn: "KN".to_string(),
    };
    let converted = device.into_flarmnet_record();
    assert_eq!(converted.flarm_id, "DDA5BA");
    assert_eq!(converted.pilot_name, "");
    assert_eq!(converted.airfield, "");
    assert_eq!(converted.plane_type, "HPH 304CZ-17");
    assert_eq!(converted.registration, "OK-7777");
    assert_eq!(converted.call_sign, "KN");
    assert_eq!(converted.frequency, "");
}

#[test]
fn test_weglide_device_conversion() {
    let device = weglide::Device {
        id: "DDA5BA".to_string(),
        name: Some("D-0816".to_string()),
        competition_id: Some("XY".to_string()),
        aircraft: Some(weglide::AircraftRef { id: 7, name: "LS 6".to_string() }),
        until: None,
        user: weglide::UserRef { id: 1, name: "Jane Doe".to_string() },
    };
    let converted = device.into_flarmnet_record();
    assert_eq!(converted.flarm_id, "DDA5BA");
    assert_eq!(converted.pilot_name, "Jane Doe");
    assert_eq!(converted.airfield, "");
    assert_eq!(converted.plane_type, "LS 6");
    assert_eq!(converted.registration, "D-0816");
    assert_eq!(converted.call_sign, "XY");
    assert_eq!(converted.frequency, "");
}

#[test]
fn test_weglide_absent_optionals_become_empty() {
    let converted = weglide_device("DDA5BA", None).into_flarmnet_record();
    assert_eq!(converted.plane_type, "");
    assert_eq!(converted.registration, "");
    assert_eq!(converted.call_sign, "");
}

#[test]
fn test_filter_current_drops_expired_windows() {
    let now = 1_700_000_000;
    let devices = vec![
        weglide_device("AA0001", None),
        weglide_device("AA0002", Some(now - 1)),
        weglide_device("AA0003", Some(now)),
        weglide_device("AA0004", Some(now + 1)),
    ];
    let current = weglide::filter_current(devices, now);
    let ids: Vec<&str> = current.iter().map(|d| d.id.as_str()).collect();
    assert_eq!(ids, vec!["AA0001", "AA0003", "AA0004"]);
}

#[test]
fn test_pagination_terminates_on_first_empty_page() {
    // Pages of sizes 100, 100, 37 and 0 yield 237 records in 4 requests.
    let mut pager = weglide::DevicePager::new();
    let sizes = [100usize, 100, 37, 0];
    let mut fetched = 0;
    for (index, size) in sizes.iter().enumerate() {
        let page: Vec<weglide::Device> =
            (0..*size).map(|k| weglide_device(&format!("{:06X}", fetched + k), None)).collect();
        fetched += size;
        let more = pager.record_page(page);
        assert_eq!(more, index < 3);
    }
    assert_eq!(pager.collected.len(), 237);
    assert_eq!(pager.requests, 4);
    assert!(pager.done);
}

#[test]
fn test_parse_hex_id() {
    assert_eq!(parse_hex_id("0"), Some(0));
    assert_eq!(parse_hex_id("DDA5BA"), Some(0xDDA5BA));
    assert_eq!(parse_hex_id("dda5ba"), Some(0xDDA5BA));
    assert_eq!(parse_hex_id("FFFFFFFF"), Some(u32::MAX));
    assert_eq!(parse_hex_id("100000000"), None);
    assert_eq!(parse_hex_id(""), None);
    assert_eq!(parse_hex_id("XYZ"), None);
    assert_eq!(parse_hex_id("12 34"), None);
}

#[test]
fn test_to_lower_folds_ascii_letters_only() {
    assert_eq!(to_lower("DDA5BA"), "dda5ba");
    assert_eq!(to_lower("abc123"), "abc123");
    assert_eq!(to_lower("Müller"), "müller");
}
