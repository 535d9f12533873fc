//! One row of a dispatch message's alarm table.
use vstd::prelude::*;

use crate::either::Either;
use crate::radio_identifier::{unit_of, RadioIdentifier, RadioIdentifierView};
use crate::text::chars_of;

verus! {

/// A dispatched unit, the station it belongs to and the time it was alarmed,
/// as the table wrote it.
#[derive(Debug, PartialEq, Eq)]
pub struct UnitAlarmTime {
    pub unit_id: Either<RadioIdentifier, String>,
    pub station: String,
    pub alarm_time: String,
}

pub struct UnitAlarmTimeView {
    pub unit_id: Either<RadioIdentifierView, Seq<char>>,
    pub station: Seq<char>,
    pub alarm_time: Seq<char>,
}

impl View for UnitAlarmTime {
    type V = UnitAlarmTimeView;

    open spec fn view(&self) -> UnitAlarmTimeView {
        UnitAlarmTimeView {
            unit_id: self.unit_id@,
            station: self.station@,
            alarm_time: self.alarm_time@,
        }
    }
}

/// The dispatched unit that the text `t` names: its callsign when `t` is one,
/// else `t` itself.
pub fn dispatched_unit(t: Vec<char>, raw: String) -> (r: Either<RadioIdentifier, String>)
    requires
        raw@ == t@,
    ensures
        r@ == unit_of(t@),
{
    match RadioIdentifier::parse_chars(&t) {
        Some(id) => id.to_left(),
        None => Either::Right(raw),
    }
}

impl UnitAlarmTime {
    pub fn from_values(unit_id: String, station: String, alarm_time: String) -> (r: UnitAlarmTime)
        ensures
            r@ == (UnitAlarmTimeView {
                unit_id: unit_of(unit_id@),
                station: station@,
                alarm_time: alarm_time@,
            }),
    {
        let t = chars_of(unit_id.as_str());
        UnitAlarmTime { unit_id: dispatched_unit(t, unit_id), station, alarm_time }
    }
}

} // verus!
