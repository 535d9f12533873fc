use std::str::FromStr;

use emergency_mail::either::Either;
use emergency_mail::radio_identifier::RadioIdentifier;
use emergency_mail::unit_alarm_time::UnitAlarmTime;

#[test]
fn test_parse_valid_radio_identifier() {
    const VALID_RADIO_IDENTIFIER: &str = "FL BRB 01/16-21";

    let radio_identifier = RadioIdentifier::from_str(VALID_RADIO_IDENTIFIER).unwrap();

    assert_eq!(radio_identifier.org, "FL");
    assert_eq!(radio_identifier.county, "BRB");
    assert_eq!(radio_identifier.agency, 1);
    assert_eq!(radio_identifier.engine_type, 16);
    assert_eq!(radio_identifier.number, 21);
}

#[test]
fn test_parse_invalid_radio_identifier() {
    const INVALID_RADIO_IDENTIFIER1: &str = "FL BRB AA/BB-ALPHA";
    const INVALID_RADIO_IDENTIFIER2: &str = "FL BRB 01/BB-AA";
    const INVALID_RADIO_IDENTIFIER3: &str = "FL BRB 01/16-AA";
    const INVALID_RADIO_IDENTIFIER4: &str = "FL BRB 01/16-21-AA"; // excess garbage
    const INVALID_RADIO_IDENTIFIER5: &str = "FL BRB 01-01-01"; // wrong separators, common in the wild

    let radio_identifier1 = RadioIdentifier::from_str(INVALID_RADIO_IDENTIFIER1);
    let radio_identifier2 = RadioIdentifier::from_str(INVALID_RADIO_IDENTIFIER2);
    let radio_identifier3 = RadioIdentifier::from_str(INVALID_RADIO_IDENTIFIER3);
    let radio_identifier4 = RadioIdentifier::from_str(INVALID_RADIO_IDENTIFIER4);
    let radio_identifier5 = RadioIdentifier::from_str(INVALID_RADIO_IDENTIFIER5);

    assert!(radio_identifier1.is_err());
    assert!(radio_identifier2.is_err());
    assert!(radio_identifier3.is_err());
    assert!(radio_identifier4.is_err());
    assert!(radio_identifier5.is_err());
}

#[test]
fn test_display_radio_identifier() {
    const VALID_RADIO_IDENTIFIER: &str = "FL BRB 01/16-21";

    let radio_identifier = RadioIdentifier::from_str(VALID_RADIO_IDENTIFIER).unwrap();
    assert_eq!(radio_identifier.to_string(), VALID_RADIO_IDENTIFIER);
}

#[test]
fn round_trip_keeps_text() {
    for s in ["FL BRB 01/16-21", "RLS PM 00/09-99", "FL PM 99/10-05", "X Y 12/34-56"] {
        let id = RadioIdentifier::parse(s).unwrap();
        assert_eq!(id.to_string(), s);
    }
}

#[test]
fn formatting_pads_to_two_digits() {
    let id = RadioIdentifier {
        org: "FL".to_string(),
        county: "PM".to_string(),
        agency: 3,
        engine_type: 123,
        number: 0,
    };
    assert_eq!(id.to_string(), "FL PM 03/123-00");
}

#[test]
fn trailing_whitespace_is_accepted() {
    let id = RadioIdentifier::parse("FL BRB 01/16-21  ").unwrap();
    assert_eq!(id.number, 21);
}

#[test]
fn single_trailing_character_is_rejected() {
    assert!(RadioIdentifier::parse("FL BRB 01/16-21x").is_err());
}

#[test]
fn agency_out_of_range_is_rejected() {
    assert!(RadioIdentifier::parse("FL BRB 256/16-21").is_err());
    assert!(RadioIdentifier::parse("FL BRB 255/16-21").is_ok());
}

#[test]
fn empty_number_is_rejected() {
    assert!(RadioIdentifier::parse("FL BRB 01/16-").is_err());
    assert!(RadioIdentifier::parse("").is_err());
}

#[test]
fn unit_alarm_time_from_values_parses_or_keeps_raw() {
    let parsed = UnitAlarmTime::from_values(
        "FL BRB 01/16-21".to_string(),
        "Wache 1".to_string(),
        "08:21".to_string(),
    );
    assert_eq!(parsed.unit_id, RadioIdentifier::parse("FL BRB 01/16-21").unwrap().to_left());
    assert_eq!(parsed.station, "Wache 1");
    assert_eq!(parsed.alarm_time, "08:21");
    let raw = UnitAlarmTime::from_values(
        "RLS BRB DGL 2".to_string(),
        "Wache 2".to_string(),
        "08:23".to_string(),
    );
    assert_eq!(raw.unit_id, Either::Right("RLS BRB DGL 2".to_string()));
}

#[test]
fn either_accessors() {
    let l: Either<u8, String> = Either::Left(4);
    let r: Either<u8, String> = Either::Right("x".to_string());
    assert!(l.is_left() && !l.is_right());
    assert!(r.is_right() && !r.is_left());
    assert_eq!(l.clone().left(), Some(4));
    assert_eq!(l.right(), None);
    assert_eq!(r.clone().right(), Some("x".to_string()));
    assert_eq!(r.left(), None);
}
