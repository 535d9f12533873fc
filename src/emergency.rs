//! The dispatch record that a message is parsed into.
use vstd::prelude::*;

use crate::either::Either;
use crate::radio_identifier::{RadioIdentifier, RadioIdentifierView};
use crate::timestamp::{unknown_time, Timestamp};
use crate::text::{chars_of, push_str, scan_to, scan_to_char, string_of};
use crate::unit_alarm_time::{UnitAlarmTime, UnitAlarmTimeView};

verus! {

/// Everything a dispatch message says about one emergency.
#[derive(Debug)]
pub struct Emergency {
    pub town: String,
    pub district: String,
    pub location: String,
    pub location_addition: Option<String>,
    pub street: String,
    pub house_number: String,
    pub object: Option<String>,
    pub fire_department_plan: Option<String>,
    pub object_part: Option<String>,
    pub object_number: Option<i64>,
    pub emergency_type: String,
    pub keyword: String,
    pub code3: String,
    /// The case number; 0 when the message held none that could be read.
    pub emergency_number: u64,
    pub note: Option<String>,
    pub patient_name: Option<String>,
    pub dispatched_units: Vec<Either<RadioIdentifier, String>>,
    pub unit_alarm_times: Vec<UnitAlarmTime>,
    pub alarm_time: Timestamp,
}

pub struct EmergencyView {
    pub town: Seq<char>,
    pub district: Seq<char>,
    pub location: Seq<char>,
    pub location_addition: Option<Seq<char>>,
    pub street: Seq<char>,
    pub house_number: Seq<char>,
    pub object: Option<Seq<char>>,
    pub fire_department_plan: Option<Seq<char>>,
    pub object_part: Option<Seq<char>>,
    pub object_number: Option<i64>,
    pub emergency_type: Seq<char>,
    pub keyword: Seq<char>,
    pub code3: Seq<char>,
    pub emergency_number: u64,
    pub note: Option<Seq<char>>,
    pub patient_name: Option<Seq<char>>,
    pub dispatched_units: Seq<Either<RadioIdentifierView, Seq<char>>>,
    pub unit_alarm_times: Seq<UnitAlarmTimeView>,
    pub alarm_time: Timestamp,
}

pub open spec fn text_view(o: Option<String>) -> Option<Seq<char>> {
    match o {
        Some(s) => Some(s@),
        None => None,
    }
}

impl View for Emergency {
    type V = EmergencyView;

    open spec fn view(&self) -> EmergencyView {
        EmergencyView {
            town: self.town@,
            district: self.district@,
            location: self.location@,
            location_addition: text_view(self.location_addition),
            street: self.street@,
            house_number: self.house_number@,
            object: text_view(self.object),
            fire_department_plan: text_view(self.fire_department_plan),
            object_part: text_view(self.object_part),
            object_number: self.object_number,
            emergency_type: self.emergency_type@,
            keyword: self.keyword@,
            code3: self.code3@,
            emergency_number: self.emergency_number,
            note: text_view(self.note),
            patient_name: text_view(self.patient_name),
            dispatched_units: self.dispatched_units@.map_values(
                |u: Either<RadioIdentifier, String>| u@,
            ),
            unit_alarm_times: self.unit_alarm_times@.map_values(|u: UnitAlarmTime| u@),
            alarm_time: self.alarm_time,
        }
    }
}

/// The record before anything has been read: empty texts, absent options, no
/// units, case number 0 and an unknown alarm time.
pub open spec fn empty_record() -> EmergencyView {
    EmergencyView {
        town: seq![],
        district: seq![],
        location: seq![],
        location_addition: None,
        street: seq![],
        house_number: seq![],
        object: None,
        fire_department_plan: None,
        object_part: None,
        object_number: None,
        emergency_type: seq![],
        keyword: seq![],
        code3: seq![],
        emergency_number: 0,
        note: None,
        patient_name: None,
        dispatched_units: seq![],
        unit_alarm_times: seq![],
        alarm_time: unknown_time(),
    }
}

impl Default for Emergency {
    fn default() -> (r: Emergency)
        ensures
            r@ == empty_record(),
    {
        let r = Emergency {
            town: String::new(),
            district: String::new(),
            location: String::new(),
            location_addition: None,
            street: String::new(),
            house_number: String::new(),
            object: None,
            fire_department_plan: None,
            object_part: None,
            object_number: None,
            emergency_type: String::new(),
            keyword: String::new(),
            code3: String::new(),
            emergency_number: 0,
            note: None,
            patient_name: None,
            dispatched_units: Vec::new(),
            unit_alarm_times: Vec::new(),
            alarm_time: Timestamp::default(),
        };
        assert(r@.dispatched_units =~= seq![]);
        assert(r@.unit_alarm_times =~= seq![]);
        r
    }
}

/// Whether the record holds what a dispatch needs: town, location, street,
/// house number, type, keyword and signal text, at least one dispatched unit
/// and alarm table entry, and a case number.
pub open spec fn is_complete(e: EmergencyView) -> bool {
    &&& e.town.len() > 0
    &&& e.location.len() > 0
    &&& e.street.len() > 0
    &&& e.house_number.len() > 0
    &&& e.emergency_type.len() > 0
    &&& e.keyword.len() > 0
    &&& e.code3.len() > 0
    &&& e.dispatched_units.len() > 0
    &&& e.unit_alarm_times.len() > 0
    &&& e.emergency_number != 0
}

/// The number of dispatched units with a callsign of agency `agency`.
pub open spec fn units_of_agency(units: Seq<Either<RadioIdentifierView, Seq<char>>>, agency: u8) -> nat
    decreases units.len(),
{
    if units.len() == 0 {
        0
    } else {
        units_of_agency(units.drop_last(), agency) + match units.last() {
            Either::Left(id) => if id.agency == agency {
                1nat
            } else {
                0nat
            },
            Either::Right(_) => 0nat,
        }
    }
}

/// The address block: the object on a line of its own if there is one, then
/// street and house number, the district, and the location when it is given
/// and differs from the district.
pub open spec fn address_of(e: EmergencyView) -> Seq<char> {
    let object = match e.object {
        Some(o) => o + seq!['\n'],
        None => seq![],
    };
    let location = if e.location.len() > 0 && e.location != e.district {
        seq!['\n'] + e.location
    } else {
        seq![]
    };
    object + e.street + seq![' '] + e.house_number + seq!['\n'] + e.district + location
}

/// A name written `<last>,<first>`, turned into `<first> <last>`.
pub open spec fn first_then_last(name: Seq<char>) -> Seq<char> {
    let k = scan_to(name, ',', 0);
    name.skip(k + 1) + seq![' '] + name.take(k)
}

impl Emergency {
    pub fn verify_minimum_fields(&self) -> (r: bool)
        ensures
            r == is_complete(self@),
    {
        !self.town.as_str().is_empty() && !self.location.as_str().is_empty()
            && !self.street.as_str().is_empty() && !self.house_number.as_str().is_empty()
            && !self.emergency_type.as_str().is_empty() && !self.keyword.as_str().is_empty()
            && !self.code3.as_str().is_empty() && self.dispatched_units.len() > 0
            && self.unit_alarm_times.len() > 0 && self.emergency_number != 0
    }

    pub fn count_units_from_town(&self, town: u8) -> (r: u64)
        ensures
            r == units_of_agency(self@.dispatched_units, town),
    {
        let ghost units = self@.dispatched_units;
        let mut n: u64 = 0;
        let mut k: usize = 0;
        while k < self.dispatched_units.len()
            invariant
                k <= self.dispatched_units.len(),
                units == self@.dispatched_units,
                n <= k,
                n == units_of_agency(units.take(k as int), town),
            decreases self.dispatched_units.len() - k,
        {
            assert(units.take(k + 1).drop_last() =~= units.take(k as int));
            assert(units.take(k + 1).last() == units[k as int]);
            match &self.dispatched_units[k] {
                Either::Left(id) => {
                    if id.agency == town {
                        n += 1;
                    }
                },
                Either::Right(_) => {},
            }
            k += 1;
        }
        assert(units.take(k as int) =~= units);
        n
    }

    pub fn address_text(&self) -> (r: String)
        ensures
            r@ == address_of(self@),
    {
        let mut s: Vec<char> = Vec::new();
        match &self.object {
            Some(o) => {
                push_str(&mut s, o.as_str());
                s.push('\n');
            },
            None => {},
        }
        push_str(&mut s, self.street.as_str());
        s.push(' ');
        push_str(&mut s, self.house_number.as_str());
        s.push('\n');
        push_str(&mut s, self.district.as_str());
        if !self.location.as_str().is_empty() && self.location != self.district {
            s.push('\n');
            push_str(&mut s, self.location.as_str());
        }
        assert(s@ =~= address_of(self@));
        string_of(s.as_slice())
    }

    /// The patient's name as `<first> <last>`; the record keeps it as
    /// `<last>,<first>`. A name without a comma is returned as it is.
    pub fn get_patient_name(&self) -> (r: Option<String>)
        ensures
            match self@.patient_name {
                Some(n) => r matches Some(t) && t@ == (if scan_to(n, ',', 0) < n.len() {
                    first_then_last(n)
                } else {
                    n
                }),
                None => r is None,
            },
    {
        match &self.patient_name {
            Some(name) => {
                let v = chars_of(name.as_str());
                let k = scan_to_char(&v, ',', 0);
                if k >= v.len() {
                    return Some(name.clone());
                }
                let mut out: Vec<char> = Vec::new();
                let mut j: usize = k + 1;
                while j < v.len()
                    invariant
                        k + 1 <= j <= v.len(),
                        out@ == v@.subrange(k + 1, j as int),
                    decreases v.len() - j,
                {
                    out.push(v[j]);
                    j += 1;
                    assert(out@ =~= v@.subrange(k + 1, j as int));
                }
                out.push(' ');
                let mut i: usize = 0;
                let ghost mid = out@;
                while i < k
                    invariant
                        i <= k <= v.len(),
                        out@ == mid + v@.take(i as int),
                    decreases k - i,
                {
                    out.push(v[i]);
                    i += 1;
                    assert(out@ =~= mid + v@.take(i as int));
                }
                assert(out@ =~= first_then_last(name@));
                Some(string_of(out.as_slice()))
            },
            None => None,
        }
    }
}

} // verus!
