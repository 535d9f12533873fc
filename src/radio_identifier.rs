//! Unit callsigns of the form `ORG COUNTY AGENCY/TYPE-NUMBER`.
use vstd::prelude::*;

use crate::either::Either;
use crate::text::{
    lemma_scan_to_stops,
    decimal_digits, decimal_value, digit_char, digit_value, is_digit,
    all_blank, chars_of, is_blank, is_blank_char, parse_unsigned, push_str, push_two_digits,
    scan_to, scan_to_char, skip_digits, skip_digits_from, string_of, sub_string, two_digits,
    unsigned_value, within,
};

verus! {

/// A unit callsign such as `FL BRB 01/16-21`.
#[derive(Debug, PartialEq, Eq)]
pub struct RadioIdentifier {
    pub org: String,
    pub county: String,
    pub agency: u8,
    pub engine_type: u32,
    pub number: u32,
}

pub struct RadioIdentifierView {
    pub org: Seq<char>,
    pub county: Seq<char>,
    pub agency: u8,
    pub engine_type: u32,
    pub number: u32,
}

impl View for RadioIdentifier {
    type V = RadioIdentifierView;

    open spec fn view(&self) -> RadioIdentifierView {
        RadioIdentifierView {
            org: self.org@,
            county: self.county@,
            agency: self.agency,
            engine_type: self.engine_type,
            number: self.number,
        }
    }
}

/// Position after the field that starts at `i` and ends before the next `c`
/// (the separator itself is consumed, if there is one).
pub open spec fn next_field(t: Seq<char>, c: char, i: int) -> int {
    let k = scan_to(t, c, i);
    if k < t.len() {
        k + 1
    } else {
        k
    }
}

/// The callsign that `t` spells, if it is one: the organisation up to the
/// first space, the county up to the next, the agency up to `/`, the unit
/// type up to `-`, then the number in ASCII digits followed by nothing but
/// whitespace.
pub open spec fn radio_identifier_of(t: Seq<char>) -> Option<RadioIdentifierView> {
    let a = scan_to(t, ' ', 0);
    let p1 = next_field(t, ' ', 0);
    let b = scan_to(t, ' ', p1);
    let p2 = next_field(t, ' ', p1);
    let c = scan_to(t, '/', p2);
    let p3 = next_field(t, '/', p2);
    let d = scan_to(t, '-', p3);
    let p4 = next_field(t, '-', p3);
    let e = skip_digits(t, p4);
    let agency = within(unsigned_value(t.subrange(p2, c)), 0, u8::MAX as int);
    let engine_type = within(unsigned_value(t.subrange(p3, d)), 0, u32::MAX as int);
    let number = within(unsigned_value(t.subrange(p4, e)), 0, u32::MAX as int);
    if agency is Some && engine_type is Some && number is Some && all_blank(t.skip(e)) {
        Some(
            RadioIdentifierView {
                org: t.subrange(0, a),
                county: t.subrange(p1, b),
                agency: agency->0 as u8,
                engine_type: engine_type->0 as u32,
                number: number->0 as u32,
            },
        )
    } else {
        None
    }
}

/// The written form: `ORG COUNTY AA/TT-NN`, each number zero-padded to two
/// places.
pub open spec fn radio_identifier_text(r: RadioIdentifierView) -> Seq<char> {
    r.org + seq![' '] + r.county + seq![' '] + two_digits(r.agency as nat) + seq!['/']
        + two_digits(r.engine_type as nat) + seq!['-'] + two_digits(r.number as nat)
}

/// A dispatched unit as read from `t`: the callsign when `t` is one, else the
/// raw text.
pub open spec fn unit_of(t: Seq<char>) -> Either<RadioIdentifierView, Seq<char>> {
    match radio_identifier_of(t) {
        Some(r) => Either::Left(r),
        None => Either::Right(t),
    }
}

fn next_field_exec(t: &Vec<char>, c: char, i: usize) -> (r: (usize, usize))
    requires
        i <= t.len(),
    ensures
        r.0 as int == scan_to(t@, c, i as int),
        r.1 as int == next_field(t@, c, i as int),
        i <= r.0 <= r.1 <= t.len(),
{
    let k = scan_to_char(t, c, i);
    if k < t.len() {
        (k, k + 1)
    } else {
        (k, k)
    }
}

fn all_blank_from(t: &Vec<char>, i: usize) -> (r: bool)
    requires
        i <= t.len(),
    ensures
        r == all_blank(t@.skip(i as int)),
{
    let mut k: usize = i;
    while k < t.len()
        invariant
            i <= k <= t.len(),
            forall|j: int| i <= j < k ==> is_blank(t@[j]),
        decreases t.len() - k,
    {
        if !is_blank_char(t[k]) {
            assert(t@.skip(i as int)[k - i] == t@[k as int]);
            return false;
        }
        k += 1;
    }
    assert forall|j: int| 0 <= j < t@.skip(i as int).len() implies is_blank(
        #[trigger] t@.skip(i as int)[j],
    ) by {
        assert(t@.skip(i as int)[j] == t@[i + j]);
    }
    true
}

impl RadioIdentifier {
    /// Reads a callsign from the characters of `t`.
    pub fn parse_chars(t: &Vec<char>) -> (r: Option<RadioIdentifier>)
        ensures
            match r {
                Some(id) => radio_identifier_of(t@) == Some(id@),
                None => radio_identifier_of(t@) is None,
            },
    {
        let (a, p1) = next_field_exec(t, ' ', 0);
        let (b, p2) = next_field_exec(t, ' ', p1);
        let (c, p3) = next_field_exec(t, '/', p2);
        let (d, p4) = next_field_exec(t, '-', p3);
        let e = skip_digits_from(t, p4);
        let agency = parse_unsigned(t, p2, c, 255);
        let engine_type = parse_unsigned(t, p3, d, 0xffff_ffff);
        let number = parse_unsigned(t, p4, e, 0xffff_ffff);
        match (agency, engine_type, number) {
            (Some(agency), Some(engine_type), Some(number)) => {
                if !all_blank_from(t, e) {
                    return None;
                }
                Some(
                    RadioIdentifier {
                        org: sub_string(t, 0, a),
                        county: sub_string(t, p1, b),
                        agency: agency as u8,
                        engine_type: engine_type as u32,
                        number: number as u32,
                    },
                )
            },
            _ => None,
        }
    }

    /// Reads a callsign; the error names the text that is not one.
    pub fn parse(s: &str) -> (r: Result<RadioIdentifier, String>)
        ensures
            match r {
                Ok(id) => radio_identifier_of(s@) == Some(id@),
                Err(_) => radio_identifier_of(s@) is None,
            },
    {
        let t = chars_of(s);
        match Self::parse_chars(&t) {
            Some(id) => Ok(id),
            None => {
                let mut msg: Vec<char> = Vec::new();
                push_str(&mut msg, "not a radio identifier: ");
                push_str(&mut msg, s);
                Err(string_of(msg.as_slice()))
            },
        }
    }

    /// The written form, `ORG COUNTY AA/TT-NN`.
    pub fn to_string(&self) -> (r: String)
        ensures
            r@ == radio_identifier_text(self@),
    {
        let mut out: Vec<char> = Vec::new();
        push_str(&mut out, self.org.as_str());
        out.push(' ');
        push_str(&mut out, self.county.as_str());
        out.push(' ');
        push_two_digits(&mut out, self.agency as u64);
        out.push('/');
        push_two_digits(&mut out, self.engine_type as u64);
        out.push('-');
        push_two_digits(&mut out, self.number as u64);
        assert(out@ =~= radio_identifier_text(self@));
        string_of(out.as_slice())
    }

    pub fn to_left<B>(self) -> (r: Either<RadioIdentifier, B>)
        ensures
            r == Either::<RadioIdentifier, B>::Left(self),
    {
        Either::Left(self)
    }
}

impl std::str::FromStr for RadioIdentifier {
    type Err = String;

    fn from_str(s: &str) -> Result<RadioIdentifier, String> {
        RadioIdentifier::parse(s)
    }
}

proof fn lemma_two_digits_written(x: char, y: char)
    requires
        is_digit(x),
        is_digit(y),
    ensures
        unsigned_value(seq![x, y]) == Some(digit_value(x) * 10 + digit_value(y)),
        two_digits((digit_value(x) * 10 + digit_value(y)) as nat) == seq![x, y],
{
    let d = seq![x, y];
    assert(d.drop_last() =~= seq![x]);
    assert(seq![x].drop_last() =~= Seq::<char>::empty());
    assert(decimal_value(Seq::<char>::empty()) == 0);
    assert(seq![x].last() == x);
    assert(decimal_value(seq![x]) == decimal_value(Seq::<char>::empty()) * 10 + digit_value(x));
    assert(d.last() == y);
    assert(decimal_value(d) == decimal_value(seq![x]) * 10 + digit_value(y));
    assert(crate::text::all_digits(seq![x, y]));
    let v = digit_value(x) * 10 + digit_value(y);
    assert(0 <= digit_value(x) <= 9);
    assert(0 <= digit_value(y) <= 9);
    assert(digit_char(digit_value(x) as nat) == x) by {
        assert((x as u32) == 48 + digit_value(x));
    }
    assert(digit_char(digit_value(y) as nat) == y) by {
        assert((y as u32) == 48 + digit_value(y));
    }
    if v < 10 {
        assert(digit_value(x) == 0);
        assert(x == '0') by {
            assert((x as u32) == 48);
        }
        assert(digit_char(v as nat) == y);
    } else {
        assert(v / 10 == digit_value(x));
        assert(v % 10 == digit_value(y));
        assert(decimal_digits((v / 10) as nat) == seq![x]);
        assert(decimal_digits(v as nat) == decimal_digits((v / 10) as nat).push(digit_char((v % 10) as nat)));
        assert(decimal_digits(v as nat) =~= seq![x, y]);
    }
}

/// Writing out a parsed callsign gives back the text it was read from, for
/// every text of the form `ORG COUNTY NN/NN-NN` whose organisation and county
/// hold no space and whose numbers are two ASCII digits each.
pub proof fn lemma_radio_identifier_round_trip(
    org: Seq<char>,
    county: Seq<char>,
    a: (char, char),
    b: (char, char),
    c: (char, char),
)
    requires
        forall|j: int| 0 <= j < org.len() ==> org[j] != ' ',
        forall|j: int| 0 <= j < county.len() ==> county[j] != ' ',
        is_digit(a.0) && is_digit(a.1) && is_digit(b.0) && is_digit(b.1) && is_digit(c.0)
            && is_digit(c.1),
    ensures
        ({
            let s = org + seq![' '] + county + seq![' ', a.0, a.1, '/', b.0, b.1, '-', c.0, c.1];
            radio_identifier_of(s) matches Some(r) && radio_identifier_text(r) == s
        }),
{
    let s = org + seq![' '] + county + seq![' ', a.0, a.1, '/', b.0, b.1, '-', c.0, c.1];
    let o = org.len() as int;
    let q = county.len() as int;
    assert(s.len() == o + q + 10);
    assert forall|j: int| 0 <= j < o implies s[j] == org[j] by {}
    assert forall|j: int| o + 1 <= j < o + 1 + q implies s[j] == county[j - o - 1] by {}
    lemma_scan_to_stops(s, ' ', 0, o);
    lemma_scan_to_stops(s, ' ', o + 1, o + 1 + q);
    lemma_scan_to_stops(s, '/', o + q + 2, o + q + 4);
    lemma_scan_to_stops(s, '-', o + q + 5, o + q + 7);
    assert(!is_digit(' ') && !is_digit('/') && !is_digit('-'));
    assert(crate::text::skip_digits(s, o + q + 10) == o + q + 10);
    assert(crate::text::skip_digits(s, o + q + 9) == o + q + 10);
    assert(crate::text::skip_digits(s, o + q + 8) == o + q + 10);
    lemma_two_digits_written(a.0, a.1);
    lemma_two_digits_written(b.0, b.1);
    lemma_two_digits_written(c.0, c.1);
    assert(s.subrange(o + q + 2, o + q + 4) =~= seq![a.0, a.1]);
    assert(s.subrange(o + q + 5, o + q + 7) =~= seq![b.0, b.1]);
    assert(s.subrange(o + q + 8, o + q + 10) =~= seq![c.0, c.1]);
    assert(s.subrange(0, o) =~= org);
    assert(s.subrange(o + 1, o + 1 + q) =~= county);
    assert(s.skip(o + q + 10) =~= Seq::<char>::empty());
    let r = radio_identifier_of(s)->0;
    assert(radio_identifier_text(r) =~= s);
}

/// A text of the form `ORG COUNTY NN/NN-NN` followed by anything that is not
/// a digit and not all whitespace is no callsign.
pub proof fn lemma_radio_identifier_rejects_trailing_text(
    org: Seq<char>,
    county: Seq<char>,
    a: (char, char),
    b: (char, char),
    c: (char, char),
    tail: Seq<char>,
)
    requires
        forall|j: int| 0 <= j < org.len() ==> org[j] != ' ',
        forall|j: int| 0 <= j < county.len() ==> county[j] != ' ',
        is_digit(a.0) && is_digit(a.1) && is_digit(b.0) && is_digit(b.1) && is_digit(c.0)
            && is_digit(c.1),
        tail.len() > 0,
        !is_digit(tail[0]),
        !all_blank(tail),
    ensures
        radio_identifier_of(
            org + seq![' '] + county + seq![' ', a.0, a.1, '/', b.0, b.1, '-', c.0, c.1] + tail,
        ) is None,
{
    let s = org + seq![' '] + county + seq![' ', a.0, a.1, '/', b.0, b.1, '-', c.0, c.1] + tail;
    let o = org.len() as int;
    let q = county.len() as int;
    assert(s.len() == o + q + 10 + tail.len());
    assert forall|j: int| 0 <= j < o implies s[j] == org[j] by {}
    assert forall|j: int| o + 1 <= j < o + 1 + q implies s[j] == county[j - o - 1] by {}
    lemma_scan_to_stops(s, ' ', 0, o);
    lemma_scan_to_stops(s, ' ', o + 1, o + 1 + q);
    lemma_scan_to_stops(s, '/', o + q + 2, o + q + 4);
    lemma_scan_to_stops(s, '-', o + q + 5, o + q + 7);
    assert(s[o + q + 10] == tail[0]);
    assert(crate::text::skip_digits(s, o + q + 10) == o + q + 10);
    assert(crate::text::skip_digits(s, o + q + 9) == o + q + 10);
    assert(crate::text::skip_digits(s, o + q + 8) == o + q + 10);
    assert(s.skip(o + q + 10) =~= tail);
}

/// A text with no `/` after its second space, or no `-` after that `/`, is
/// no callsign.
pub proof fn lemma_radio_identifier_needs_separators(t: Seq<char>)
    ensures
        ({
            let p2 = next_field(t, ' ', next_field(t, ' ', 0));
            let p3 = next_field(t, '/', p2);
            (forall|j: int| p2 <= j < t.len() ==> t[j] != '/') || (forall|j: int|
                p3 <= j < t.len() ==> t[j] != '-')
        }) ==> radio_identifier_of(t) is None,
{
    let p1 = next_field(t, ' ', 0);
    let p2 = next_field(t, ' ', p1);
    lemma_scan_to_bounds(t, ' ', 0);
    lemma_scan_to_bounds(t, ' ', p1);
    let p3 = next_field(t, '/', p2);
    lemma_scan_to_bounds(t, '/', p2);
    lemma_scan_to_bounds(t, '-', p3);
    if forall|j: int| p2 <= j < t.len() ==> t[j] != '/' {
        lemma_scan_to_stops(t, '/', p2, t.len() as int);
        lemma_scan_to_stops(t, '-', t.len() as int, t.len() as int);
        assert(t.subrange(p3, scan_to(t, '-', p3)) =~= Seq::<char>::empty());
    } else if forall|j: int| p3 <= j < t.len() ==> t[j] != '-' {
        lemma_scan_to_stops(t, '-', p3, t.len() as int);
        let p4 = next_field(t, '-', p3);
        assert(p4 == t.len());
        assert(crate::text::skip_digits(t, p4) == p4);
        assert(t.subrange(p4, p4) =~= Seq::<char>::empty());
    }
}

proof fn lemma_scan_to_bounds(t: Seq<char>, c: char, i: int)
    requires
        0 <= i <= t.len(),
    ensures
        i <= scan_to(t, c, i) <= t.len(),
        i <= next_field(t, c, i) <= t.len(),
{
    crate::text::lemma_scan_to_within(t, c, i);
}

proof fn lemma_scan_to_facts(t: Seq<char>, c: char, i: int)
    requires
        0 <= i <= t.len(),
    ensures
        i <= scan_to(t, c, i) <= t.len(),
        forall|j: int| i <= j < scan_to(t, c, i) ==> t[j] != c,
        scan_to(t, c, i) < t.len() ==> t[scan_to(t, c, i)] == c,
    decreases t.len() - i,
{
    if i < t.len() {
        lemma_scan_to_facts(t, c, i + 1);
    }
}

proof fn lemma_skip_digits_facts(t: Seq<char>, i: int)
    requires
        0 <= i <= t.len(),
    ensures
        i <= skip_digits(t, i) <= t.len(),
        forall|j: int| i <= j < skip_digits(t, i) ==> is_digit(t[j]),
    decreases t.len() - i,
{
    if i < t.len() {
        lemma_skip_digits_facts(t, i + 1);
    }
}

/// Whether `t` is written `ORG COUNTY A/T-N` followed by whitespace only, with
/// these parts: organisation and county without spaces, agency without `/`,
/// unit type without `-`, and the number in ASCII digits.
pub open spec fn written_as(
    t: Seq<char>,
    org: Seq<char>,
    county: Seq<char>,
    agency: Seq<char>,
    engine_type: Seq<char>,
    number: Seq<char>,
    rest: Seq<char>,
) -> bool {
    &&& t == org + seq![' '] + county + seq![' '] + agency + seq!['/'] + engine_type + seq!['-']
        + number + rest
    &&& forall|j: int| 0 <= j < org.len() ==> org[j] != ' '
    &&& forall|j: int| 0 <= j < county.len() ==> county[j] != ' '
    &&& forall|j: int| 0 <= j < agency.len() ==> agency[j] != '/'
    &&& forall|j: int| 0 <= j < engine_type.len() ==> engine_type[j] != '-'
    &&& number.len() > 0 && crate::text::all_digits(number)
    &&& all_blank(rest)
}

/// A text is read as a callsign only when it is written `ORG COUNTY A/T-N`
/// with nothing but whitespace after the number, the agency a number up to
/// 255, and unit type and number decimal numbers that fit 32 bits: any
/// other separator, a part that is not a number, or trailing text makes
/// parsing fail.
pub proof fn lemma_radio_identifier_only_when_well_formed(t: Seq<char>)
    ensures
        radio_identifier_of(t) matches Some(r) ==> exists|
            agency: Seq<char>,
            engine_type: Seq<char>,
            number: Seq<char>,
            rest: Seq<char>,
        |
            {
                &&& written_as(t, r.org, r.county, agency, engine_type, number, rest)
                &&& unsigned_value(agency) == Some(r.agency as int)
                &&& unsigned_value(engine_type) == Some(r.engine_type as int)
                &&& unsigned_value(number) == Some(r.number as int)
            },
{
    if radio_identifier_of(t) is Some {
        let r = radio_identifier_of(t)->0;
        let n = t.len() as int;
        let a = scan_to(t, ' ', 0);
        lemma_scan_to_facts(t, ' ', 0);
        let p1 = next_field(t, ' ', 0);
        let b = scan_to(t, ' ', p1);
        lemma_scan_to_facts(t, ' ', p1);
        let p2 = next_field(t, ' ', p1);
        let c = scan_to(t, '/', p2);
        lemma_scan_to_facts(t, '/', p2);
        let p3 = next_field(t, '/', p2);
        let d = scan_to(t, '-', p3);
        lemma_scan_to_facts(t, '-', p3);
        let p4 = next_field(t, '-', p3);
        let e = skip_digits(t, p4);
        lemma_skip_digits_facts(t, p4);
        if a == n || b == n || c == n || d == n {
            assert(p4 == n);
            assert(t.subrange(p4, e) =~= Seq::<char>::empty());
            assert(false);
        }
        let agency = t.subrange(p2, c);
        let engine_type = t.subrange(p3, d);
        let number = t.subrange(p4, e);
        let rest = t.skip(e);
        assert(number.len() > 0);
        assert(crate::text::all_digits(number));
        assert(number.len() == 0 || number[0] != '+');
        assert(t =~= r.org + seq![' '] + r.county + seq![' '] + agency + seq!['/'] + engine_type
            + seq!['-'] + number + rest);
        assert(written_as(t, r.org, r.county, agency, engine_type, number, rest));
    }
}

} // verus!
