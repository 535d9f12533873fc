use std::time::Duration;

use emergency_mail::config::{
    Config, IMAPConfig, IMAPModeDescription, IMAPModes, PrintingConfig,
    IMAP_IDLE_DEFAULT_INTERVAL,
};
use emergency_mail::copies::{count_copies, count_units_from_configured_amt};
use emergency_mail::emergency::Emergency;
use emergency_mail::recoverable::Recoverable;

fn config(method: IMAPModes, interval: u64) -> Config {
    Config {
        imap: IMAPConfig {
            host: "imap.gmail.com".to_string(),
            port: 993,
            username: "abc".to_string(),
            password: "def".to_string(),
            mode: IMAPModeDescription { method, interval },
        },
        printing: PrintingConfig {
            printer: Some("HP_LaserJet_500_Pro".to_string()),
            min_copies: 2,
            max_copies: Some(5),
            additional_copies: Some(1),
            amt: 1,
            sumatra_path: "SumatraPDF.exe".to_string(),
            disable: Some(false),
        },
        pdf_save_path: None,
    }
}

#[test]
fn intervals_in_seconds() {
    assert_eq!(config(IMAPModes::Poll, 25).interval_as_duration(), Duration::from_secs(25));
    assert_eq!(config(IMAPModes::Idle, 29).interval_as_duration(), Duration::from_secs(29 * 60));
    let d = IMAPModeDescription::default();
    assert_eq!(d.method, IMAPModes::Idle);
    assert_eq!(d.interval, IMAP_IDLE_DEFAULT_INTERVAL);
}

#[test]
fn settings_rules() {
    assert!(config(IMAPModes::Poll, 25).check().is_ok());
    assert!(config(IMAPModes::Poll, 0).check().is_err());
    assert!(config(IMAPModes::Idle, 30).check().is_err());
    assert!(config(IMAPModes::Idle, 29).check().is_ok());
    let mut off = config(IMAPModes::Poll, 25);
    off.printing.disable = Some(true);
    assert!(off.printing.disabled());
    assert!(off.check().is_err());
    off.pdf_save_path = Some("out".to_string());
    assert!(off.check().is_ok());
}

#[test]
fn credentials_from_environment() {
    let mut c = config(IMAPModes::Idle, 29);
    c.imap.host = String::new();
    c.imap.username = String::new();
    c.imap.password = String::new();
    let r = c.fill_from_environment(
        Some("host".to_string()),
        Some("user".to_string()),
        Some("pass".to_string()),
    );
    assert!(r.is_ok());
    assert_eq!(c.imap.host, "host");
    assert_eq!(c.imap.username, "user");
    assert_eq!(c.imap.password, "pass");

    let mut missing = config(IMAPModes::Idle, 29);
    missing.imap.password = String::new();
    assert!(missing.fill_from_environment(None, None, None).is_err());

    let mut kept = config(IMAPModes::Idle, 29);
    assert!(kept.fill_from_environment(None, None, None).is_ok());
    assert_eq!(kept.imap.username, "abc");
}

#[test]
fn copies_follow_configured_agency_and_bounds() {
    let ems = Emergency::parse(
        "~~EMListe~~FL PM 01/16-21, FL PM 01/44-01, FL PM 02/16-21, RLS PM 01/1-1, FL BRB 01/16-21~~\n",
    );
    let mut c = config(IMAPModes::Idle, 29);
    assert_eq!(count_units_from_configured_amt(&ems, &c), 2);
    assert_eq!(count_copies(&ems, &c), 3);
    c.printing.max_copies = Some(2);
    assert_eq!(count_copies(&ems, &c), 2);
    c.printing.max_copies = None;
    c.printing.additional_copies = None;
    c.printing.min_copies = 0;
    assert_eq!(count_copies(&ems, &c), 2);
    let none = Emergency::parse("");
    c.printing.min_copies = 1;
    assert_eq!(count_copies(&none, &c), 1);
}

#[test]
fn recoverable_results() {
    let ok: Recoverable<u8, String> = Recoverable::Success(1);
    let rec: Recoverable<u8, String> = Recoverable::Recoverable(2);
    let bad: Recoverable<u8, String> = Recoverable::Unrecoverable("e".to_string());
    assert_eq!(ok.to_result(), Ok(1));
    assert_eq!(Recoverable::<u8, String>::Recoverable(2).to_lenient_result(), Ok(2));
    assert_eq!(rec.to_result(), Err(String::new()));
    assert_eq!(bad.to_lenient_result(), Err("e".to_string()));
}
