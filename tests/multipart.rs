use emergency_mail::message::Message;
use emergency_mail::multipart::{extract_multipart_plain_text, get_message_body};

const MULTIPART_BODY: &str = "--fcd0a2e3-f220-407c-96ea-a69339f943bc-1\r\nContent-Type: text/plain; charset=\"utf-8\"\r\nContent-Transfer-Encoding: quoted-printable\r\n\r\n~~Ort~~Brandenburg an der Havel~~\r\n\r\n\r\n~~Ortsteil~~G=C3=B6ttin/BRB~~\r\n\r\n\r\n\r\n~~Ortslage~~G=C3=B6risgr=C3=A4ben~~\r\n\r\n\r\n\r\n~~Strasse~~G=C3=B6risgr=C3=A4ben~~\r\n\r\n\r\n\r\n~~Hausnummer~~22~~\r\n\r\n\r\n\r\n~~Objekt~~~~\r\n\r\n\r\n\r\n~~FWPlan~~~~\r\n\r\n\r\n\r\n~~Objektteil~~~~\r\n\r\n\r\n\r\n~~Objektnummer~~-1~~\r\n\r\n\r\n\r\n~~Einsatzart~~Hilfeleistungseinsatz~~\r\n\r\n\r\n\r\n~~Alarmgrund~~H:Natur~~\r\n\r\n\r\n\r\n~~Sondersignal~~ohne Sondersignal~~\r\n\r\n\r\n\r\n~~Einsatznummer~~322088295~~\r\n\r\n\r\n\r\n~~Besonderheiten~~TESTETESTTESTE~~\r\n\r\n\r\n\r\n~~Name~~,~~\r\n\r\n\r\n\r\n~~EMListe~~FL BRB 01/16-21, RLS BRB DGL 2~~\r\n\r\n\r\n\r\n~~Status~~Fahrzeug~~Zuget~~Alarm~~Ausger=C3=BCckt~~\r\n\r\n\r\n\r\n~~ALARM~~unbekannt#~~BRB FW Brandenburg 1=C3=B8~~FL BRB 01/16-21~~08:21~~=\r\n~~\r\n\r\n\r\n\r\n~~ALARM~~unbekannt#~~BRB FW Brandenburg 1=C3=B8~~FL BRB 01/16-21~~08:21~~=\r\n~~\r\n\r\n\r\n\r\n~~ALARM~~unbekannt#~~BRB FW Brandenburg 1=C3=B8~~RLS BRB DGL 2~~08:23~~~~\r\n\r\n\r\n\r\n~~WGS84_X~~52.33823333~~\r\n\r\n\r\n\r\n~~WGS84_Y~~12.48626667~~\r\n\r\n\r\n\r\n~~Koord_EPSG_25833~~12.48626667~~52.33823333~~\r\n\r\n\r\n\r\n~~Koord_EPSG_4326~~E1248630~~N5233820~~~~Einsatzortzusatz~~~~\r\n\r\n\r\n\r\n~~Alarmzeit~~29.09.22&08:23~~\r\n--fcd0a2e3-f220-407c-96ea-a69339f943bc-1\r\nContent-Type: text/html; charset=\"utf-8\"\r\nContent-Transfer-Encoding: quoted-printable\r\n\r\n<!DOCTYPE html><html><head><meta http-equiv=3D\"Content-Type\" content=3D\"t=\r\next/html; charset=3Dutf-8\"></head><body><div style><div style><div style>=\r\n<div style><div style>~~Ort~~Brandenburg an der Havel~~<u style></u></div=\r\n><div style><div dir=3D\"ltr\" style><div style><div style><div link=3D\"#05=\r\n63C1\" vlink=3D\"#954F72\" style=3D\"overflow-wrap: break-word;\" lang=3D\"DE\">=\r\n<div style><p style>~~Ortsteil~~G=C3=B6ttin/BRB~~<u style></u></p><p styl=\r\ne>~~Ortslage~~G=C3=B6risgr=C3=A4ben~~<u style></u></p><p style>~~Strasse~=\r\n~G=C3=B6risgr=C3=A4ben~~<u style></u></p><p style>~~Hausnummer~~22~~<u st=\r\nyle></u></p><p style>~~Objekt~~~~<u style></u></p><p style>~~FWPlan~~~~<u=\r\n style></u></p><p style>~~Objektteil~~~~<u style></u></p><p style>~~Objek=\r\ntnummer~~-1~~<u style></u></p><p style>~~Einsatzart~~Hilfeleistungseinsat=\r\nz~~<u style></u></p><p style>~~Alarmgrund~~H:Natur~~<u style></u></p><p s=\r\ntyle>~~Sondersignal~~ohne Sondersignal~~<u style></u></p><p style>~~Einsa=\r\ntznummer~~322088295~~<u style></u></p><p style>~~Besonderheiten~~TESTETES=\r\nTTESTE~~<u style></u></p><p style>~~Name~~,~~<u style></u></p><p style>~~=\r\nEMListe~~FL BRB 01/16-21, RLS BRB DGL 2~~<u style></u></p><p style>~~Stat=\r\nus~~Fahrzeug~~Zuget~~Alarm~~Ausger=C3=BCckt~~<u style></u></p><p style>~~=\r\nALARM~~unbekannt#~~BRB FW Brandenburg 1=C3=B8~~FL BRB 01/16-21~~08:21~~~~=\r\n<u style></u></p><p style>~~ALARM~~unbekannt#~~BRB FW Brandenburg 1=C3=B8=\r\n~~FL BRB 01/16-21~~08:21~~~~<u style></u></p><p style>~~ALARM~~unbekannt#=\r\n~~BRB FW Brandenburg 1=C3=B8~~RLS BRB DGL 2~~08:23~~~~<u style></u></p><p=\r\n style>~~WGS84_X~~52.33823333~~<u style></u></p><p style>~~WGS84_Y~~12.48=\r\n626667~~<u style></u></p><p style>~~Koord_EPSG_25833~~12.48626667~~52.338=\r\n23333~~<u style></u></p><p style>~~Koord_EPSG_4326~~E1248630~~N5233820~~~=\r\n~Einsatzortzusatz~~~~<u style></u></p><p style>~~Alarmzeit~~29.09.22&amp;=\r\n08:23~~<u style></u></p></div></div></div></div></div></div><div style><b=\r\nr></div></div></div></div></div></body></html>\r\n--fcd0a2e3-f220-407c-96ea-a69339f943bc-1--\r\n";
const MULTIPART_BODY_PLAIN_TEXT: &str = "~~Ort~~Brandenburg an der Havel~~\r\n\r\n\r\n~~Ortsteil~~G=C3=B6ttin/BRB~~\r\n\r\n\r\n\r\n~~Ortslage~~G=C3=B6risgr=C3=A4ben~~\r\n\r\n\r\n\r\n~~Strasse~~G=C3=B6risgr=C3=A4ben~~\r\n\r\n\r\n\r\n~~Hausnummer~~22~~\r\n\r\n\r\n\r\n~~Objekt~~~~\r\n\r\n\r\n\r\n~~FWPlan~~~~\r\n\r\n\r\n\r\n~~Objektteil~~~~\r\n\r\n\r\n\r\n~~Objektnummer~~-1~~\r\n\r\n\r\n\r\n~~Einsatzart~~Hilfeleistungseinsatz~~\r\n\r\n\r\n\r\n~~Alarmgrund~~H:Natur~~\r\n\r\n\r\n\r\n~~Sondersignal~~ohne Sondersignal~~\r\n\r\n\r\n\r\n~~Einsatznummer~~322088295~~\r\n\r\n\r\n\r\n~~Besonderheiten~~TESTETESTTESTE~~\r\n\r\n\r\n\r\n~~Name~~,~~\r\n\r\n\r\n\r\n~~EMListe~~FL BRB 01/16-21, RLS BRB DGL 2~~\r\n\r\n\r\n\r\n~~Status~~Fahrzeug~~Zuget~~Alarm~~Ausger=C3=BCckt~~\r\n\r\n\r\n\r\n~~ALARM~~unbekannt#~~BRB FW Brandenburg 1=C3=B8~~FL BRB 01/16-21~~08:21~~=\r\n~~\r\n\r\n\r\n\r\n~~ALARM~~unbekannt#~~BRB FW Brandenburg 1=C3=B8~~FL BRB 01/16-21~~08:21~~=\r\n~~\r\n\r\n\r\n\r\n~~ALARM~~unbekannt#~~BRB FW Brandenburg 1=C3=B8~~RLS BRB DGL 2~~08:23~~~~\r\n\r\n\r\n\r\n~~WGS84_X~~52.33823333~~\r\n\r\n\r\n\r\n~~WGS84_Y~~12.48626667~~\r\n\r\n\r\n\r\n~~Koord_EPSG_25833~~12.48626667~~52.33823333~~\r\n\r\n\r\n\r\n~~Koord_EPSG_4326~~E1248630~~N5233820~~~~Einsatzortzusatz~~~~\r\n\r\n\r\n\r\n~~Alarmzeit~~29.09.22&08:23~~\r\n";
const HEADER_CONTENT_TYPE: &str = "Content-Type: text/plain\r\n";
const HEADER_CONTENT_TYPE_MULTIPART: &str =
    "Content-Type: multipart/alternative; boundary=--fcd0a2e3-f220-407c-96ea-a69339f943bc-1\r\n";
const BODY_PLAIN_TEXT: &str = "~~Ort~~Brandenburg an der Havel~~\r\n\r\n\r\n~~Ortsteil~~G=C3=B6ttin/BRB~~\r\n\r\n\r\n\r\n~~Ortslage~~G=C3=B6risgr=C3=A4ben~~\r\n\r\n\r\n\r\n~~Strasse~~G=C3=B6risgr=C3=A4ben~~\r\n\r\n\r\n\r\n~~Hausnummer~~22~~\r\n\r\n\r\n\r\n~~Objekt~~~~\r\n\r\n\r\n\r\n~~FWPlan~~~~\r\n\r\n\r\n\r\n~~Objektteil~~~~\r\n\r\n\r\n\r\n~~Objektnummer~~-1~~\r\n\r\n\r\n\r\n~~Einsatzart~~Hilfeleistungseinsatz~~\r\n\r\n\r\n\r\n~~Alarmgrund~~H:Natur~~\r\n\r\n\r\n\r\n~~Sondersignal~~ohne Sondersignal~~\r\n\r\n\r\n\r\n~~Einsatznummer~~322088295~~\r\n\r\n\r\n\r\n~~Besonderheiten~~TESTETESTTESTE~~\r\n\r\n\r\n\r\n~~Name~~,~~\r\n\r\n\r\n\r\n~~EMListe~~FL BRB 01/16-21, RLS BRB DGL 2~~\r\n\r\n\r\n\r\n~~Status~~Fahrzeug~~Zuget~~Alarm~~Ausger=C3=BCckt~~\r\n\r\n\r\n\r\n~~ALARM~~unbekannt#~~BRB FW Brandenburg 1=C3=B8~~FL BRB 01/16-21~~08:21~~=\r\n~~\r\n\r\n\r\n\r\n~~ALARM~~unbekannt#~~BRB FW Brandenburg 1=C3=B8~~FL BRB 01/16-21~~08:21~~=\r\n~~\r\n\r\n\r\n\r\n~~ALARM~~unbekannt#~~BRB FW Brandenburg 1=C3=B8~~RLS BRB DGL 2~~08:23~~~~\r\n\r\n\r\n\r\n~~WGS84_X~~52.33823333~~\r\n\r\n\r\n\r\n~~WGS84_Y~~12.48626667~~\r\n\r\n\r\n\r\n~~Koord_EPSG_25833~~12.48626667~~52.33823333~~\r\n\r\n\r\n\r\n~~Koord_EPSG_4326~~E1248630~~N5233820~~~~Einsatzortzusatz~~~~\r\n\r\n\r\n\r\n~~Alarmzeit~~29.09.22&08:23~~\r\n";

#[test]
fn test_extract_multipart_plain_text_from_multipart() {
    let plaintext = extract_multipart_plain_text(MULTIPART_BODY);
    assert!(plaintext.is_some());
    assert_eq!(plaintext.unwrap(), MULTIPART_BODY_PLAIN_TEXT);
}

#[test]
fn test_extract_multipart_plain_text_from_non_multipart() {
    let plaintext = extract_multipart_plain_text(MULTIPART_BODY_PLAIN_TEXT);
    assert!(plaintext.is_none());
}

#[test]
fn test_extract_multipart_plain_text_from_empty() {
    let plaintext = extract_multipart_plain_text("");
    assert!(plaintext.is_none());
}

#[test]
fn test_get_message_body_plain_text() {
    let example = Message {
        uid: Some(1),
        seq: 1,
        header: Some(HEADER_CONTENT_TYPE.as_bytes().to_vec()),
        text: Some(BODY_PLAIN_TEXT.as_bytes().to_vec()),
    };
    let body = get_message_body(example);
    assert_eq!(body, Some(BODY_PLAIN_TEXT.to_string()));
}

#[test]
fn test_get_message_body_multipart() {
    // the plain text part of the multipart mail is returned
    let example = Message {
        uid: Some(1),
        seq: 1,
        header: Some(HEADER_CONTENT_TYPE_MULTIPART.as_bytes().to_vec()),
        text: Some(MULTIPART_BODY.as_bytes().to_vec()),
    };
    let body = get_message_body(example);
    assert_eq!(body, Some(MULTIPART_BODY_PLAIN_TEXT.to_string()));
}

#[test]
fn message_body_without_text_is_none() {
    let example = Message {
        uid: Some(2),
        seq: 2,
        header: Some(HEADER_CONTENT_TYPE.as_bytes().to_vec()),
        text: None,
    };
    assert_eq!(get_message_body(example), None);
}

#[test]
fn message_body_with_invalid_utf8_is_none() {
    let example = Message {
        uid: Some(3),
        seq: 3,
        header: None,
        text: Some(vec![0x41, 0xff, 0x42]),
    };
    assert_eq!(get_message_body(example), None);
}

#[test]
fn message_body_without_headers_detects_multipart() {
    let example = Message {
        uid: None,
        seq: 4,
        header: None,
        text: Some(MULTIPART_BODY.as_bytes().to_vec()),
    };
    assert_eq!(get_message_body(example), Some(MULTIPART_BODY_PLAIN_TEXT.to_string()));
}

#[test]
fn message_body_plain_without_headers_is_kept() {
    let example = Message {
        uid: None,
        seq: 5,
        header: None,
        text: Some("Gr\u{fc}\u{df}e".as_bytes().to_vec()),
    };
    assert_eq!(get_message_body(example), Some("Gr\u{fc}\u{df}e".to_string()));
}

#[test]
fn multipart_without_plain_part_is_none() {
    let body = "--sep\r\nContent-Type: text/html\r\n\r\n<p>x</p>\r\n--sep--\r\n";
    assert_eq!(extract_multipart_plain_text(body), None);
}
