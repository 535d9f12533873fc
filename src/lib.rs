//! Watching a mailbox for fire-dispatch mails and reading them into
//! dispatch records.
//!
//! The library holds the logic: the mailbox cursor and the decisions of the
//! synchronization engine (`mailbox`), finding a mail's plain text
//! (`multipart`), undoing the gateway's escaping (`message`), and parsing the
//! `~~key~~value~~` format into an [`emergency::Emergency`] (`parsing`),
//! with unit callsigns (`radio_identifier`) and the alarm table. The logic is
//! verified against its contracts; the few calls into std and chrono that
//! Verus cannot see are trusted wrappers, each documented where it stands.
pub mod config;
pub mod copies;
pub mod either;
pub mod emergency;
pub mod mailbox;
pub mod message;
pub mod multipart;
pub mod parsing;
pub mod radio_identifier;
pub mod recoverable;
pub mod text;
pub mod timestamp;
pub mod unit_alarm_time;
