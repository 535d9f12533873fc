use std::str::FromStr;

use emergency_mail::either::Either;
use emergency_mail::emergency::Emergency;
use emergency_mail::radio_identifier::RadioIdentifier;
use emergency_mail::timestamp::Timestamp;

const TEST_MAIL_CONTENT: &str = "~~Ort~~Brandenburg an der Havel~~\r\n\r\n\r\n\
~~Ortsteil~~Göttin/BRB~~\r\n\r\n\r\n\r\n\
~~Ortslage~~Görisgräben~~\r\n\r\n\r\n\r\n\
~~Strasse~~Görisgräben~~\r\n\r\n\r\n\r\n\
~~Hausnummer~~22~~\r\n\r\n\r\n\r\n\
~~Objekt~~~~\r\n\r\n\r\n\r\n\
~~FWPlan~~~~\r\n\r\n\r\n\r\n\
~~Objektteil~~~~\r\n\r\n\r\n\r\n\
~~Objektnummer~~-1~~\r\n\r\n\r\n\r\n\
~~Einsatzart~~Hilfeleistungseinsatz~~\r\n\r\n\r\n\r\n\
~~Alarmgrund~~H:Natur~~\r\n\r\n\r\n\r\n\
~~Sondersignal~~ohne Sondersignal~~\r\n\r\n\r\n\r\n\
~~Einsatznummer~~322088295~~\r\n\r\n\r\n\r\n\
~~Besonderheiten~~TESTETESTTESTE~~\r\n\r\n\r\n\r\n\
~~Name~~,~~\r\n\r\n\r\n\r\n\
~~EMListe~~FL BRB 01/16-21, RLS BRB DGL 2~~\r\n\r\n\r\n\r\n\
~~Status~~Tableau-Adresse~~Wache~~Fahrzeug~~Alarm~~Ausgerückt~~\r\n\r\n\r\n\r\n\
~~ALARM~~unbekannt#~~BRB FW Brandenburg 1ø~~FL BRB 01/16-21~~08:21~~~~\r\n\r\n\r\n\r\n\
~~ALARM~~unbekannt#~~BRB FW Brandenburg 1ø~~FL BRB 01/16-21~~08:22~~~~\r\n\r\n\r\n\r\n\
~~ALARM~~unbekannt#~~BRB FW Brandenburg 1ø~~RLS BRB DGL 2~~08:23~~~~\r\n\r\n\r\n\r\n\
~~WGS84_X~~52.33823333~~\r\n\r\n\r\n\r\n\
~~WGS84_Y~~12.48626667~~\r\n\r\n\r\n\r\n\
~~Koord_EPSG_25833~~12.48626667~~52.33823333~~\r\n\r\n\r\n\r\n\
~~Koord_EPSG_4326~~E1248630~~N5233820~~~~Einsatzortzusatz~~~~\r\n\r\n\r\n\r\n\
~~Alarmzeit~~29.09.22&08:23~~\r\n";

fn time(year: i32, month: u32, day: u32, hour: u32, minute: u32) -> Timestamp {
    Timestamp { year, month, day, hour, minute, second: 0 }
}

#[test]
fn test_parse_emergency() {
    let ems = Emergency::from_str(TEST_MAIL_CONTENT).unwrap();

    assert_eq!(ems.town, "Brandenburg an der Havel".to_string());
    assert_eq!(ems.district, "Göttin/BRB".to_string());
    assert_eq!(ems.location, "Görisgräben".to_string());
    assert_eq!(ems.street, "Görisgräben".to_string());
    assert_eq!(ems.house_number, "22".to_string());
    assert_eq!(ems.object, None);
    assert_eq!(ems.fire_department_plan, None);
    assert_eq!(ems.object_part, None);
    assert_eq!(ems.object_number, None);
    assert_eq!(ems.emergency_type, "Hilfeleistungseinsatz".to_string());
    assert_eq!(ems.keyword, "H:Natur".to_string());
    assert_eq!(ems.code3, "ohne Sondersignal".to_string());
    assert_eq!(ems.emergency_number, 322088295);
    assert_eq!(ems.note, Some("TESTETESTTESTE".to_string()));
    assert_eq!(ems.patient_name, None);
    assert!(ems
        .dispatched_units
        .iter()
        .zip(vec![
            Either::Left("FL BRB 01/16-21".parse::<RadioIdentifier>().unwrap()),
            Either::Right("RLS BRB DGL 2".to_string())
        ])
        .all(|(a, b)| *a == b));
    assert_eq!(ems.unit_alarm_times.len(), 3);
    assert_eq!(ems.unit_alarm_times[0].alarm_time, "08:21");
    assert_eq!(
        ems.unit_alarm_times[0].unit_id,
        Either::Left("FL BRB 01/16-21".parse::<RadioIdentifier>().unwrap())
    );
    assert_eq!(ems.unit_alarm_times[0].station, "BRB FW Brandenburg 1");
    assert_eq!(ems.unit_alarm_times[1].alarm_time, "08:22");
    assert_eq!(
        ems.unit_alarm_times[1].unit_id,
        Either::Left("FL BRB 01/16-21".parse::<RadioIdentifier>().unwrap())
    );
    assert_eq!(ems.unit_alarm_times[1].station, "BRB FW Brandenburg 1");
    assert_eq!(ems.unit_alarm_times[2].alarm_time, "08:23");
    assert_eq!(
        ems.unit_alarm_times[2].unit_id,
        Either::Right("RLS BRB DGL 2".to_string())
    );
    assert_eq!(ems.unit_alarm_times[2].station, "BRB FW Brandenburg 1");
    assert_eq!(ems.alarm_time, time(2022, 9, 29, 8, 23));
}

#[test]
fn end_to_end_escaped_message() {
    let body = "~~Einsatznummer~~322088295~~\r\n\r\n\
~~EMListe~~FL BRB 01/16-21, RLS BRB DGL 2~~\r\n\r\n\
~~Status~~Fahrzeug~~Wache~~Alarm~~\r\n\r\n\
~~ALARM~~FL BRB 01/16-21~~BRB FW Brandenburg 1=C3=B8~~08:21~~\r\n\r\n\
~~ALARM~~FL BRB 01/16-21~~BRB FW Brandenburg 1=C3=B8~~08:21~~=\r\n\r\n\r\n\
~~ALARM~~RLS BRB DGL 2~~BRB FW Brandenburg 1=C3=B8~~08:23~~\r\n\r\n\
~~Alarmzeit~~29.09.22&08:23~~\r\n";
    let ems = Emergency::from_mail(body);
    assert_eq!(ems.emergency_number, 322088295);
    assert_eq!(ems.dispatched_units.len(), 2);
    assert!(ems.dispatched_units[0].is_left());
    assert_eq!(ems.dispatched_units[1], Either::Right("RLS BRB DGL 2".to_string()));
    assert_eq!(ems.unit_alarm_times.len(), 3);
    let times: Vec<&str> = ems.unit_alarm_times.iter().map(|u| u.alarm_time.as_str()).collect();
    assert_eq!(times, vec!["08:21", "08:21", "08:23"]);
    assert_eq!(ems.unit_alarm_times[0].station, "BRB FW Brandenburg 1");
    assert_eq!(ems.alarm_time, time(2022, 9, 29, 8, 23));
}

#[test]
fn malformed_line_is_skipped_alone() {
    let body = "~~Ort~~Brandenburg~~\r\n\
~~Ortsteil~~Göttin~~\r\n\
~~Ortslage~~Görisgräben~~\r\n\
~~Strasse~Görisgräben~~\r\n\
~~Hausnummer~~22~~\r\n\
~~Einsatzart~~Hilfeleistungseinsatz~~\r\n\
~~Alarmgrund~~H:Natur~~\r\n\
~~Sondersignal~~ohne Sondersignal~~\r\n\
~~Einsatznummer~~42~~\r\n\
~~Besonderheiten~~Hinweis~~\r\n";
    let ems = Emergency::parse(body);
    assert_eq!(ems.town, "Brandenburg");
    assert_eq!(ems.district, "Göttin");
    assert_eq!(ems.location, "Görisgräben");
    assert_eq!(ems.street, "");
    assert_eq!(ems.house_number, "22");
    assert_eq!(ems.emergency_type, "Hilfeleistungseinsatz");
    assert_eq!(ems.keyword, "H:Natur");
    assert_eq!(ems.code3, "ohne Sondersignal");
    assert_eq!(ems.emergency_number, 42);
    assert_eq!(ems.note, Some("Hinweis".to_string()));
}

#[test]
fn line_without_opening_delimiter_is_skipped() {
    let ems = Emergency::parse("Ort~~X~~\n~~Hausnummer~~7~~\n");
    assert_eq!(ems.town, "");
    assert_eq!(ems.house_number, "7");
}

#[test]
fn alarm_columns_in_any_order_give_same_entries() {
    let canonical = "~~Status~~Fahrzeug~~Wache~~Alarm~~\r\n\
~~ALARM~~FL BRB 01/16-21~~Wache Nord~~08:21~~\r\n\
~~ALARM~~RLS BRB DGL 2~~Wache Süd~~08:23~~\r\n";
    let swapped = "~~Status~~Alarm~~Fahrzeug~~Wache~~\r\n\
~~ALARM~~08:21~~FL BRB 01/16-21~~Wache Nord~~\r\n\
~~ALARM~~08:23~~RLS BRB DGL 2~~Wache Süd~~\r\n";
    let a = Emergency::parse(canonical);
    let b = Emergency::parse(swapped);
    assert_eq!(a.unit_alarm_times.len(), 2);
    assert_eq!(a.unit_alarm_times, b.unit_alarm_times);
    assert_eq!(a.unit_alarm_times[1].station, "Wache Süd");
}

#[test]
fn alarm_row_before_header_is_ignored() {
    let ems = Emergency::parse("~~ALARM~~FL BRB 01/16-21~~Wache~~08:21~~\r\n~~Hausnummer~~3~~\r\n");
    assert!(ems.unit_alarm_times.is_empty());
    assert_eq!(ems.house_number, "3");
}

#[test]
fn placeholder_rows_are_skipped_and_short_rows_padded() {
    let body = "~~Status~~Fahrzeug~~Wache~~Alarm~~\r\n\
~~ALARM~~FL BRB 01/16-21~~~~~~\r\n\
~~ALARM~~FL BRB 01/16-22~~Wache~~\r\n";
    let ems = Emergency::parse(body);
    assert_eq!(ems.unit_alarm_times.len(), 1);
    assert_eq!(ems.unit_alarm_times[0].station, "Wache");
    assert_eq!(ems.unit_alarm_times[0].alarm_time, "");
}

#[test]
fn numbers_that_cannot_be_read_fall_back() {
    let ems = Emergency::parse("~~Einsatznummer~~12a~~\n~~Objektnummer~~x~~\n");
    assert_eq!(ems.emergency_number, 0);
    assert_eq!(ems.object_number, None);
    let ems = Emergency::parse("~~Einsatznummer~~18446744073709551616~~\n~~Objektnummer~~-17~~\n");
    assert_eq!(ems.emergency_number, 0);
    assert_eq!(ems.object_number, Some(-17));
}

#[test]
fn optional_fields_and_patient_name() {
    let ems = Emergency::parse(
        "~~Objekt~~Schule~~\n~~FWPlan~~P7~~\n~~Objektteil~~~~\n~~Name~~Muster,Max~~\n~~Einsatzortzusatz~~Hof~~\n",
    );
    assert_eq!(ems.object, Some("Schule".to_string()));
    assert_eq!(ems.fire_department_plan, Some("P7".to_string()));
    assert_eq!(ems.object_part, None);
    assert_eq!(ems.patient_name, Some("Muster,Max".to_string()));
    assert_eq!(ems.get_patient_name(), Some("Max Muster".to_string()));
    assert_eq!(ems.location_addition, Some("Hof".to_string()));
}

#[test]
fn unknown_properties_are_ignored() {
    let ems = Emergency::parse("~~Neu~~wert~~\n~~Hausnummer~~5~~\n");
    assert_eq!(ems.house_number, "5");
}

#[test]
fn bad_alarm_time_leaves_unknown() {
    let ems = Emergency::parse("~~Alarmzeit~~31.02.22&08:23~~\n");
    assert_eq!(ems.alarm_time, Timestamp::default());
    assert_eq!(Timestamp::default(), time(1970, 1, 1, 0, 0));
}

#[test]
fn empty_message_gives_empty_record() {
    let ems = Emergency::parse("");
    assert_eq!(ems.town, "");
    assert_eq!(ems.emergency_number, 0);
    assert!(ems.dispatched_units.is_empty());
    assert!(!ems.verify_minimum_fields());
}

#[test]
fn completeness_and_address() {
    let ems = Emergency::from_str(TEST_MAIL_CONTENT).unwrap();
    assert!(ems.verify_minimum_fields());
    assert_eq!(ems.address_text(), "Görisgräben 22\nGöttin/BRB\nGörisgräben");
    assert_eq!(ems.count_units_from_town(1), 1);
    assert_eq!(ems.count_units_from_town(2), 0);
}

#[test]
fn patient_name_without_comma_is_kept() {
    let ems = Emergency::parse("~~Name~~Smith~~\n");
    assert_eq!(ems.get_patient_name(), Some("Smith".to_string()));
}

#[test]
fn broken_closing_delimiter_stays_on_its_line() {
    let ems = Emergency::parse("~~Ort~~A~\n~~Einsatznummer~~5~~\n");
    assert_eq!(ems.town, "");
    assert_eq!(ems.emergency_number, 5);
    let ems = Emergency::parse("~~Ort~~A\r\n~~Hausnummer~~7~~\r\n~~Objektnummer~~12~~\r\n");
    assert_eq!(ems.town, "");
    assert_eq!(ems.house_number, "7");
    assert_eq!(ems.object_number, Some(12));
}

#[test]
fn inserted_unknown_line_changes_nothing() {
    let a = Emergency::parse("~~Ort~~A~~\n~~Hausnummer~~7~~\n");
    let b = Emergency::parse("~~Ort~~A~~\n~~Neu~~x~~\n~~Hausnummer~~7~~\n");
    assert_eq!(a.town, b.town);
    assert_eq!(a.house_number, b.house_number);
    let c = Emergency::parse("~~Ort~~A~\n~~Neu~~x~~\n~~Hausnummer~~7~~\n");
    assert_eq!(c.house_number, "7");
}
