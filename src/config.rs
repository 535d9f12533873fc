//! The program's settings and the rules they must satisfy.
use vstd::prelude::*;

verus! {

/// The longest wait that RFC 2177 allows before an IDLE must be renewed, in
/// minutes; also the default.
pub const IMAP_IDLE_DEFAULT_INTERVAL: u64 = 29;

pub const IMAP_IDLE_MAX_INTERVAL: u64 = 29;

pub const SECONDS_PER_MINUTE: u64 = 60;

/// How new mail is noticed: by the server's push (IDLE) or by polling.
#[derive(Debug, Clone, Copy, PartialEq, Eq, Structural, Default)]
pub enum IMAPModes {
    #[default]
    Idle,
    Poll,
}

/// The notification mode and its interval: minutes for IDLE, seconds for
/// polling.
#[derive(Debug, Clone)]
pub struct IMAPModeDescription {
    pub method: IMAPModes,
    pub interval: u64,
}

#[derive(Debug, Clone)]
pub struct IMAPConfig {
    pub host: String,
    pub port: u16,
    pub username: String,
    pub password: String,
    pub mode: IMAPModeDescription,
}

#[derive(Debug, Clone)]
pub struct PrintingConfig {
    /// `None` selects the system's default printer.
    pub printer: Option<String>,
    pub min_copies: u8,
    pub max_copies: Option<u8>,
    pub additional_copies: Option<u8>,
    /// The agency whose units each get a copy.
    pub amt: u8,
    pub sumatra_path: String,
    pub disable: Option<bool>,
}

#[derive(Debug, Clone)]
pub struct Config {
    pub imap: IMAPConfig,
    pub printing: PrintingConfig,
    pub pdf_save_path: Option<String>,
}

/// What `std::time::Duration::from_secs` returns for `secs`.
pub uninterp spec fn duration_of_secs(secs: u64) -> std::time::Duration;

/// Relies on `std::time::Duration::from_secs`.
#[verifier::external_body]
fn seconds(secs: u64) -> (r: std::time::Duration)
    ensures
        r == duration_of_secs(secs),
{
    std::time::Duration::from_secs(secs)
}

/// The interval in seconds.
pub open spec fn interval_secs(mode: IMAPModeDescription) -> int {
    match mode.method {
        IMAPModes::Poll => mode.interval as int,
        IMAPModes::Idle => mode.interval * SECONDS_PER_MINUTE,
    }
}

impl Default for IMAPModeDescription {
    fn default() -> (r: IMAPModeDescription)
        ensures
            r.method == IMAPModes::Idle,
            r.interval == IMAP_IDLE_DEFAULT_INTERVAL,
    {
        IMAPModeDescription { method: IMAPModes::Idle, interval: IMAP_IDLE_DEFAULT_INTERVAL }
    }
}

impl IMAPModeDescription {
    pub fn interval_seconds(&self) -> (r: u64)
        requires
            interval_secs(*self) <= u64::MAX,
        ensures
            r == interval_secs(*self),
    {
        match self.method {
            IMAPModes::Poll => self.interval,
            IMAPModes::Idle => self.interval * SECONDS_PER_MINUTE,
        }
    }

    pub fn interval_as_duration(&self) -> (r: std::time::Duration)
        requires
            interval_secs(*self) <= u64::MAX,
        ensures
            r == duration_of_secs(interval_secs(*self) as u64),
    {
        seconds(self.interval_seconds())
    }
}

impl PrintingConfig {
    pub fn disabled(&self) -> (r: bool)
        ensures
            r == (self.disable == Some(true)),
    {
        match self.disable {
            Some(d) => d,
            None => false,
        }
    }
}

/// Whether the settings are usable: a positive interval, an IDLE interval
/// within RFC 2177, and somewhere to save documents when printing is off.
pub open spec fn settings_valid(c: Config) -> bool {
    &&& c.imap.mode.interval > 0
    &&& !(c.imap.mode.method == IMAPModes::Idle && c.imap.mode.interval > IMAP_IDLE_MAX_INTERVAL)
    &&& !(c.printing.disable == Some(true) && c.pdf_save_path is None)
}

/// Whether the credentials that the settings leave empty can be taken from
/// the environment's values. A username is only taken from there together
/// with the password.
pub open spec fn environment_suffices(
    c: Config,
    host: Option<String>,
    username: Option<String>,
    password: Option<String>,
) -> bool {
    &&& (c.imap.host@.len() > 0 || host is Some)
    &&& (c.imap.password@.len() > 0 || (password is Some && (c.imap.username@.len() > 0
        || username is Some)))
}

impl Config {
    pub fn interval_as_duration(&self) -> (r: std::time::Duration)
        requires
            interval_secs(self.imap.mode) <= u64::MAX,
        ensures
            r == duration_of_secs(interval_secs(self.imap.mode) as u64),
    {
        self.imap.mode.interval_as_duration()
    }

    /// Fills empty credentials from the environment's values (`EM_IMAP_HOST`,
    /// `EM_IMAP_USERNAME`, `EM_IMAP_PASSWORD`); fails when one that is
    /// needed is missing.
    pub fn fill_from_environment(
        &mut self,
        host: Option<String>,
        username: Option<String>,
        password: Option<String>,
    ) -> (r: Result<(), String>)
        ensures
            r is Ok <==> environment_suffices(*old(self), host, username, password),
            r is Ok ==> {
                &&& final(self).imap.host@ == (if old(self).imap.host@.len() > 0 {
                    old(self).imap.host@
                } else {
                    host->0@
                })
                &&& final(self).imap.password@ == (if old(self).imap.password@.len() > 0 {
                    old(self).imap.password@
                } else {
                    password->0@
                })
                &&& final(self).imap.username@ == (if old(self).imap.password@.len() > 0
                    || old(self).imap.username@.len() > 0 {
                    old(self).imap.username@
                } else {
                    username->0@
                })
                &&& final(self).imap.port == old(self).imap.port
                &&& final(self).imap.mode == old(self).imap.mode
                &&& final(self).printing == old(self).printing
                &&& final(self).pdf_save_path == old(self).pdf_save_path
            },
    {
        if self.imap.host.as_str().is_empty() {
            match host {
                Some(h) => {
                    self.imap.host = h;
                },
                None => {
                    return Err("couldn't get EM_IMAP_HOST from environment".to_owned());
                },
            }
        }
        if self.imap.password.as_str().is_empty() {
            match password {
                Some(p) => {
                    self.imap.password = p;
                },
                None => {
                    return Err("couldn't get EM_IMAP_PASSWORD from environment".to_owned());
                },
            }
            if self.imap.username.as_str().is_empty() {
                match username {
                    Some(u) => {
                        self.imap.username = u;
                    },
                    None => {
                        return Err("couldn't get EM_IMAP_USERNAME from environment".to_owned());
                    },
                }
            }
        }
        Ok(())
    }

    /// Checks the rules of [`settings_valid`].
    pub fn check(&self) -> (r: Result<(), String>)
        ensures
            r is Ok <==> settings_valid(*self),
    {
        if self.imap.mode.interval == 0 {
            return Err("interval for IMAP mode must be greater than 0".to_owned());
        }
        if self.imap.mode.method == IMAPModes::Idle && self.imap.mode.interval
            > IMAP_IDLE_MAX_INTERVAL {
            return Err("Interval for IDLE outside of RFC 2177 specification!".to_owned());
        }
        if self.printing.disabled() && self.pdf_save_path.is_none() {
            return Err("printing is disabled, but no pdf save path is set".to_owned());
        }
        Ok(())
    }
}

} // verus!
