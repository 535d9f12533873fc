//! Character-level building blocks shared by the decoders and parsers:
//! scanning, whitespace, decimal numbers and conversions between `str`,
//! `String` and `Vec<char>`.
use vstd::prelude::*;
use vstd::utf8::*;

verus! {

/// Unicode `White_Space`, the set that `char::is_whitespace` tests for.
pub open spec fn is_blank(c: char) -> bool {
    let u = c as u32;
    (0x09 <= u && u <= 0x0d) || u == 0x20 || u == 0x85 || u == 0xa0 || u == 0x1680 || (0x2000
        <= u && u <= 0x200a) || u == 0x2028 || u == 0x2029 || u == 0x202f || u == 0x205f || u
        == 0x3000
}

pub open spec fn is_digit(c: char) -> bool {
    '0' <= c && c <= '9'
}

pub open spec fn is_hex_digit(c: char) -> bool {
    is_digit(c) || ('a' <= c && c <= 'f') || ('A' <= c && c <= 'F')
}

pub open spec fn digit_value(c: char) -> int {
    (c as u32) - ('0' as u32)
}

pub open spec fn hex_value(c: char) -> int {
    if is_digit(c) {
        digit_value(c)
    } else if 'a' <= c && c <= 'f' {
        (c as u32) - ('a' as u32) + 10
    } else {
        (c as u32) - ('A' as u32) + 10
    }
}

pub open spec fn all_blank(t: Seq<char>) -> bool {
    forall|k: int| 0 <= k < t.len() ==> is_blank(#[trigger] t[k])
}

pub open spec fn all_digits(t: Seq<char>) -> bool {
    forall|k: int| 0 <= k < t.len() ==> is_digit(#[trigger] t[k])
}

/// Value of a string of decimal digits, most significant first.
pub open spec fn decimal_value(d: Seq<char>) -> int
    decreases d.len(),
{
    if d.len() == 0 {
        0
    } else {
        decimal_value(d.drop_last()) * 10 + digit_value(d.last())
    }
}

/// What `str::parse` accepts for an unsigned integer, before the range check:
/// an optional `+`, then one or more ASCII digits.
pub open spec fn unsigned_value(t: Seq<char>) -> Option<int> {
    let d = if t.len() > 0 && t[0] == '+' {
        t.drop_first()
    } else {
        t
    };
    if d.len() > 0 && all_digits(d) {
        Some(decimal_value(d))
    } else {
        None
    }
}

/// What `str::parse` accepts for a signed integer, before the range check:
/// an optional `+` or `-`, then one or more ASCII digits.
pub open spec fn signed_value(t: Seq<char>) -> Option<int> {
    if t.len() > 0 && t[0] == '-' {
        let d = t.drop_first();
        if d.len() > 0 && all_digits(d) {
            Some(-decimal_value(d))
        } else {
            None
        }
    } else {
        unsigned_value(t)
    }
}

/// `o` when it holds a value in `lo..=hi`, else `None`.
pub open spec fn within(o: Option<int>, lo: int, hi: int) -> Option<int> {
    match o {
        Some(v) => if lo <= v && v <= hi {
            Some(v)
        } else {
            None
        },
        None => None,
    }
}

pub open spec fn digit_char(d: nat) -> char {
    ((48 + d % 10) as u8) as char
}

/// Decimal digits of `n`, without leading zeros (`"0"` for zero).
pub open spec fn decimal_digits(n: nat) -> Seq<char>
    decreases n,
{
    if n < 10 {
        seq![digit_char(n)]
    } else {
        decimal_digits(n / 10).push(digit_char(n % 10))
    }
}

/// Decimal digits of `n`, zero-padded to at least two places (`{:02}`).
pub open spec fn two_digits(n: nat) -> Seq<char> {
    if n < 10 {
        seq!['0', digit_char(n)]
    } else {
        decimal_digits(n)
    }
}

/// First position at or after `i` that holds `c`, or the end.
pub open spec fn scan_to(t: Seq<char>, c: char, i: int) -> int
    decreases t.len() - i,
{
    if 0 <= i < t.len() && t[i] != c {
        scan_to(t, c, i + 1)
    } else {
        i
    }
}

/// First position at or after `i` that is not blank, or the end.
pub open spec fn skip_blank(t: Seq<char>, i: int) -> int
    decreases t.len() - i,
{
    if 0 <= i < t.len() && is_blank(t[i]) {
        skip_blank(t, i + 1)
    } else {
        i
    }
}

/// First position at or after `i` that is not an ASCII digit, or the end.
pub open spec fn skip_digits(t: Seq<char>, i: int) -> int
    decreases t.len() - i,
{
    if 0 <= i < t.len() && is_digit(t[i]) {
        skip_digits(t, i + 1)
    } else {
        i
    }
}

/// `t` with its trailing non-ASCII characters removed.
pub open spec fn trim_non_ascii_end(t: Seq<char>) -> Seq<char>
    decreases t.len(),
{
    if t.len() > 0 && (t.last() as u32) >= 128 {
        trim_non_ascii_end(t.drop_last())
    } else {
        t
    }
}

/// `t` with leading and trailing whitespace removed (`str::trim`).
pub open spec fn trim(t: Seq<char>) -> Seq<char> {
    trim_end(t.skip(skip_blank(t, 0)))
}

pub open spec fn trim_end(t: Seq<char>) -> Seq<char>
    decreases t.len(),
{
    if t.len() > 0 && is_blank(t.last()) {
        trim_end(t.drop_last())
    } else {
        t
    }
}

pub open spec fn occurs_at(t: Seq<char>, pat: Seq<char>, k: int) -> bool {
    0 <= k && k + pat.len() <= t.len() && t.subrange(k, k + pat.len()) == pat
}

/// Position of the first occurrence of `pat` in `t` at or after `i`.
pub open spec fn find_from(t: Seq<char>, pat: Seq<char>, i: int) -> Option<int>
    decreases t.len() + 1 - i,
{
    if i < 0 || i + pat.len() > t.len() {
        None
    } else if occurs_at(t, pat, i) {
        Some(i)
    } else {
        find_from(t, pat, i + 1)
    }
}

/// `t` cut at each occurrence of the non-empty `sep`, left to right
/// (`str::split`).
pub open spec fn split_from(t: Seq<char>, sep: Seq<char>, i: int) -> Seq<Seq<char>>
    decreases t.len() - i,
{
    match find_from(t, sep, i) {
        Some(k) => if sep.len() > 0 && i <= k && k + sep.len() <= t.len() {
            seq![t.subrange(i, k)].add(split_from(t, sep, k + sep.len()))
        } else {
            seq![t.subrange(i, t.len() as int)]
        },
        None => seq![t.subrange(i, t.len() as int)],
    }
}

pub open spec fn split(t: Seq<char>, sep: Seq<char>) -> Seq<Seq<char>> {
    split_from(t, sep, 0)
}

pub open spec fn is_prefix(pre: Seq<char>, t: Seq<char>) -> bool {
    pre.len() <= t.len() && t.subrange(0, pre.len() as int) == pre
}

pub open spec fn contains(t: Seq<char>, pat: Seq<char>) -> bool {
    find_from(t, pat, 0) is Some
}

/// What `String::from_utf8` returns: the decoded text exactly when the bytes
/// are valid UTF-8.
pub open spec fn utf8_text(b: Seq<u8>) -> Option<Seq<char>> {
    if valid_utf8(b) {
        Some(decode_utf8(b))
    } else {
        None
    }
}

/// Relies on `String::from_utf8`: valid UTF-8 is decoded, anything else is
/// refused.
#[verifier::external_body]
pub(crate) fn string_from_utf8(b: Vec<u8>) -> (r: Option<String>)
    ensures
        match r {
            Some(s) => utf8_text(b@) == Some(s@),
            None => utf8_text(b@) is None,
        },
{
    String::from_utf8(b).ok()
}

/// Relies on `String::from_iter`: the string holds the characters in order.
#[verifier::external_body]
pub(crate) fn string_of(v: &[char]) -> (r: String)
    ensures
        r@ == v@,
{
    String::from_iter(v.iter())
}

/// The characters of `s`, in order.
pub fn chars_of(s: &str) -> (r: Vec<char>)
    ensures
        r@ == s@,
{
    let mut out: Vec<char> = Vec::new();
    for c in it: s.chars()
        invariant
            out@ == it.seq().take(it.index() as int),
    {
        out.push(c);
    }
    out
}

/// The characters of `s` in `lo..hi`.
pub fn sub_chars(s: &Vec<char>, lo: usize, hi: usize) -> (r: Vec<char>)
    requires
        lo <= hi <= s.len(),
    ensures
        r@ == s@.subrange(lo as int, hi as int),
{
    let mut out: Vec<char> = Vec::new();
    let mut k: usize = lo;
    while k < hi
        invariant
            lo <= k <= hi <= s.len(),
            out@ == s@.subrange(lo as int, k as int),
        decreases hi - k,
    {
        out.push(s[k]);
        k += 1;
        assert(out@ =~= s@.subrange(lo as int, k as int));
    }
    out
}

/// The characters of `s` in `lo..hi`, as a `String`.
pub fn sub_string(s: &Vec<char>, lo: usize, hi: usize) -> (r: String)
    requires
        lo <= hi <= s.len(),
    ensures
        r@ == s@.subrange(lo as int, hi as int),
{
    let v = sub_chars(s, lo, hi);
    string_of(v.as_slice())
}

pub fn is_blank_char(c: char) -> (r: bool)
    ensures
        r == is_blank(c),
{
    let u = c as u32;
    (0x09 <= u && u <= 0x0d) || u == 0x20 || u == 0x85 || u == 0xa0 || u == 0x1680 || (0x2000
        <= u && u <= 0x200a) || u == 0x2028 || u == 0x2029 || u == 0x202f || u == 0x205f || u
        == 0x3000
}

pub fn is_digit_char(c: char) -> (r: bool)
    ensures
        r == is_digit(c),
{
    '0' <= c && c <= '9'
}

pub fn is_hex_digit_char(c: char) -> (r: bool)
    ensures
        r == is_hex_digit(c),
{
    ('0' <= c && c <= '9') || ('a' <= c && c <= 'f') || ('A' <= c && c <= 'F')
}

pub fn hex_value_of(c: char) -> (r: u8)
    requires
        is_hex_digit(c),
    ensures
        r as int == hex_value(c),
        r < 16,
{
    if '0' <= c && c <= '9' {
        (c as u32 - '0' as u32) as u8
    } else if 'a' <= c && c <= 'f' {
        (c as u32 - 'a' as u32 + 10) as u8
    } else {
        (c as u32 - 'A' as u32 + 10) as u8
    }
}

/// First position at or after `i` that holds `c`, or `s.len()`.
pub fn scan_to_char(s: &Vec<char>, c: char, i: usize) -> (r: usize)
    requires
        i <= s.len(),
    ensures
        r as int == scan_to(s@, c, i as int),
        i <= r <= s.len(),
{
    let mut j: usize = i;
    while j < s.len() && s[j] != c
        invariant
            i <= j <= s.len(),
            scan_to(s@, c, i as int) == scan_to(s@, c, j as int),
        decreases s.len() - j,
    {
        j += 1;
    }
    j
}

/// First position at or after `i` that is not blank, or `s.len()`.
pub fn skip_blank_from(s: &Vec<char>, i: usize) -> (r: usize)
    requires
        i <= s.len(),
    ensures
        r as int == skip_blank(s@, i as int),
        i <= r <= s.len(),
        r < s.len() ==> !is_blank(s@[r as int]),
{
    let mut j: usize = i;
    while j < s.len() && is_blank_char(s[j])
        invariant
            i <= j <= s.len(),
            skip_blank(s@, i as int) == skip_blank(s@, j as int),
        decreases s.len() - j,
    {
        j += 1;
    }
    j
}

/// First position at or after `i` that is not an ASCII digit, or `s.len()`.
pub fn skip_digits_from(s: &Vec<char>, i: usize) -> (r: usize)
    requires
        i <= s.len(),
    ensures
        r as int == skip_digits(s@, i as int),
        i <= r <= s.len(),
{
    let mut j: usize = i;
    while j < s.len() && is_digit_char(s[j])
        invariant
            i <= j <= s.len(),
            skip_digits(s@, i as int) == skip_digits(s@, j as int),
        decreases s.len() - j,
    {
        j += 1;
    }
    j
}

pub proof fn lemma_decimal_value_nonneg(d: Seq<char>)
    requires
        all_digits(d),
    ensures
        decimal_value(d) >= 0,
    decreases d.len(),
{
    if d.len() > 0 {
        assert(all_digits(d.drop_last()));
        lemma_decimal_value_nonneg(d.drop_last());
        assert(is_digit(d[d.len() - 1]));
    }
}

pub proof fn lemma_unsigned_value_nonneg(t: Seq<char>)
    ensures
        unsigned_value(t) matches Some(v) ==> v >= 0,
{
    let d = if t.len() > 0 && t[0] == '+' {
        t.drop_first()
    } else {
        t
    };
    if d.len() > 0 && all_digits(d) {
        lemma_decimal_value_nonneg(d);
    }
}

/// The number written in `s[lo..hi]` (optional `+`, ASCII digits), if it is
/// at most `max`.
pub fn parse_unsigned(s: &Vec<char>, lo: usize, hi: usize, max: u64) -> (r: Option<u64>)
    requires
        lo <= hi <= s.len(),
    ensures
        match r {
            Some(v) => within(unsigned_value(s@.subrange(lo as int, hi as int)), 0, max as int)
                == Some(v as int),
            None => within(unsigned_value(s@.subrange(lo as int, hi as int)), 0, max as int) is None,
        },
{
    let ghost t = s@.subrange(lo as int, hi as int);
    let start: usize = if lo < hi && s[lo] == '+' {
        lo + 1
    } else {
        lo
    };
    let ghost d = s@.subrange(start as int, hi as int);
    assert(d =~= (if t.len() > 0 && t[0] == '+' {
        t.drop_first()
    } else {
        t
    }));
    assert(unsigned_value(t) == (if d.len() > 0 && all_digits(d) {
        Some(decimal_value(d))
    } else {
        None::<int>
    }));
    if start == hi {
        assert(d.len() == 0);
        return None;
    }
    let mut acc: u64 = 0;
    let mut over: bool = false;
    let mut k: usize = start;
    while k < hi
        invariant
            lo <= start <= k <= hi <= s.len(),
            d == s@.subrange(start as int, hi as int),
            d.len() > 0,
            unsigned_value(s@.subrange(lo as int, hi as int)) == (if all_digits(d) {
                Some(decimal_value(d))
            } else {
                None::<int>
            }),
            all_digits(s@.subrange(start as int, k as int)),
            !over ==> acc as int == decimal_value(s@.subrange(start as int, k as int)),
            !over ==> acc <= max,
            over ==> decimal_value(s@.subrange(start as int, k as int)) > max,
        decreases hi - k,
    {
        let c = s[k];
        if !is_digit_char(c) {
            assert(d[k - start] == c);
            return None;
        }
        let ghost prev = s@.subrange(start as int, k as int);
        let ghost next = s@.subrange(start as int, k + 1);
        assert(next.drop_last() =~= prev);
        assert(next.last() == c);
        assert(all_digits(next));
        proof {
            lemma_decimal_value_nonneg(prev);
        }
        if !over {
            let dv = (c as u32 - '0' as u32) as u128;
            let n: u128 = acc as u128 * 10 + dv;
            if n > max as u128 {
                over = true;
            } else {
                acc = n as u64;
            }
        }
        k += 1;
    }
    assert(s@.subrange(start as int, k as int) == d);
    if over {
        None
    } else {
        Some(acc)
    }
}

/// The number written in `s[lo..hi]` (optional sign, ASCII digits), if it
/// fits an `i64`.
pub fn parse_signed(s: &Vec<char>, lo: usize, hi: usize) -> (r: Option<i64>)
    requires
        lo <= hi <= s.len(),
    ensures
        match r {
            Some(v) => within(signed_value(s@.subrange(lo as int, hi as int)), i64::MIN as int, i64::MAX as int)
                == Some(v as int),
            None => within(signed_value(s@.subrange(lo as int, hi as int)), i64::MIN as int, i64::MAX as int) is None,
        },
{
    let ghost t = s@.subrange(lo as int, hi as int);
    if lo < hi && s[lo] == '-' {
        let ghost d = s@.subrange(lo + 1, hi as int);
        assert(d =~= t.drop_first());
        if lo + 1 < hi && s[lo + 1] == '+' {
            assert(!is_digit(d[0]));
            return None;
        }
        assert(d.len() > 0 ==> d[0] != '+');
        assert(unsigned_value(d) == (if d.len() > 0 && all_digits(d) {
            Some(decimal_value(d))
        } else {
            None::<int>
        }));
        let m = parse_unsigned(s, lo + 1, hi, 0x8000_0000_0000_0000u64);
        proof {
            if d.len() > 0 && all_digits(d) {
                lemma_decimal_value_nonneg(d);
            }
        }
        match m {
            Some(v) => {
                if v == 0x8000_0000_0000_0000u64 {
                    Some(i64::MIN)
                } else {
                    Some(-(v as i64))
                }
            },
            None => None,
        }
    } else {
        let m = parse_unsigned(s, lo, hi, i64::MAX as u64);
        proof {
            lemma_unsigned_value_nonneg(t);
        }
        match m {
            Some(v) => Some(v as i64),
            None => None,
        }
    }
}

/// Appends the decimal digits of `n`.
pub fn push_decimal(out: &mut Vec<char>, n: u64)
    ensures
        final(out)@ == old(out)@ + decimal_digits(n as nat),
    decreases n,
{
    if n >= 10 {
        push_decimal(out, n / 10);
    }
    out.push(((48 + n % 10) as u8) as char);
    proof {
        if n >= 10 {
            assert(final(out)@ =~= old(out)@ + decimal_digits(n as nat));
        } else {
            assert(final(out)@ =~= old(out)@ + decimal_digits(n as nat));
        }
    }
}

/// Appends the decimal digits of `n`, zero-padded to two places.
pub fn push_two_digits(out: &mut Vec<char>, n: u64)
    ensures
        final(out)@ == old(out)@ + two_digits(n as nat),
{
    if n < 10 {
        out.push('0');
    }
    push_decimal(out, n);
    assert(final(out)@ =~= old(out)@ + two_digits(n as nat));
}

/// Appends the characters of `lit`.
pub fn push_str(out: &mut Vec<char>, lit: &str)
    ensures
        final(out)@ == old(out)@ + lit@,
{
    let v = chars_of(lit);
    let mut k: usize = 0;
    let ghost start = out@;
    while k < v.len()
        invariant
            k <= v.len(),
            v@ == lit@,
            out@ == start + v@.take(k as int),
        decreases v.len() - k,
    {
        out.push(v[k]);
        k += 1;
        assert(out@ =~= start + v@.take(k as int));
    }
    assert(v@.take(k as int) =~= v@);
}

/// Whether `s[lo..hi]` reads `lit`.
pub fn range_is(s: &Vec<char>, lo: usize, hi: usize, lit: &str) -> (r: bool)
    requires
        lo <= hi <= s.len(),
    ensures
        r == (s@.subrange(lo as int, hi as int) == lit@),
{
    let v = chars_of(lit);
    if hi - lo != v.len() {
        return false;
    }
    let mut k: usize = 0;
    while k < v.len()
        invariant
            v@ == lit@,
            hi - lo == v.len(),
            lo <= hi <= s.len(),
            k <= v.len(),
            forall|j: int| 0 <= j < k ==> s@[lo + j] == v@[j],
        decreases v.len() - k,
    {
        if s[lo + k] != v[k] {
            assert(s@.subrange(lo as int, hi as int)[k as int] != lit@[k as int]);
            return false;
        }
        k += 1;
    }
    assert(s@.subrange(lo as int, hi as int) =~= lit@);
    true
}

/// Whether `lit` occurs in `s` at position `k`.
pub fn occurs_at_exec(s: &Vec<char>, pat: &Vec<char>, k: usize) -> (r: bool)
    requires
        k <= s.len(),
    ensures
        r == occurs_at(s@, pat@, k as int),
{
    if pat.len() > s.len() - k {
        return false;
    }
    let mut j: usize = 0;
    while j < pat.len()
        invariant
            k + pat.len() <= s.len(),
            j <= pat.len(),
            forall|m: int| 0 <= m < j ==> s@[k + m] == pat@[m],
        decreases pat.len() - j,
    {
        if s[k + j] != pat[j] {
            assert(s@.subrange(k as int, k + pat.len())[j as int] != pat@[j as int]);
            return false;
        }
        j += 1;
    }
    assert(s@.subrange(k as int, k + pat.len()) =~= pat@);
    true
}

/// Position of the first occurrence of `pat` in `s` at or after `i`.
pub fn find_exec(s: &Vec<char>, pat: &Vec<char>, i: usize) -> (r: Option<usize>)
    requires
        i <= s.len(),
    ensures
        match r {
            Some(k) => find_from(s@, pat@, i as int) == Some(k as int) && i <= k && k + pat.len() <= s.len(),
            None => find_from(s@, pat@, i as int) is None,
        },
{
    if pat.len() == 0 {
        assert(s@.subrange(i as int, i as int) =~= pat@);
        return Some(i);
    }
    let mut k: usize = i;
    while k <= s.len()
        invariant
            i <= k,
            pat.len() > 0,
            find_from(s@, pat@, i as int) == find_from(s@, pat@, k as int),
        decreases s.len() + 1 - k,
    {
        if pat.len() > s.len() - k {
            return None;
        }
        if occurs_at_exec(s, pat, k) {
            return Some(k);
        }
        k += 1;
    }
    None
}

/// Whether `r` is a range of `s` that holds `part`.
pub open spec fn range_holds(s: Seq<char>, r: (usize, usize), part: Seq<char>) -> bool {
    r.0 <= r.1 <= s.len() && s.subrange(r.0 as int, r.1 as int) == part
}

/// The ranges that `str::split` cuts `s` into at each occurrence of the
/// non-empty `sep`.
pub fn split_ranges(s: &Vec<char>, sep: &Vec<char>) -> (r: Vec<(usize, usize)>)
    requires
        sep.len() > 0,
    ensures
        r@.len() == split(s@, sep@).len(),
        forall|k: int| 0 <= k < r@.len() ==> range_holds(s@, #[trigger] r@[k], split(s@, sep@)[k]),
{
    let mut out: Vec<(usize, usize)> = Vec::new();
    let mut i: usize = 0;
    loop
        invariant
            i <= s.len(),
            sep.len() > 0,
            out@.len() + split_from(s@, sep@, i as int).len() == split(s@, sep@).len(),
            forall|k: int|
                0 <= k < out@.len() ==> range_holds(s@, #[trigger] out@[k], split(s@, sep@)[k]),
            forall|k: int|
                0 <= k < split_from(s@, sep@, i as int).len() ==> #[trigger] split_from(
                    s@,
                    sep@,
                    i as int,
                )[k] == split(s@, sep@)[out@.len() + k],
        decreases s.len() - i,
    {
        let ghost rest = split_from(s@, sep@, i as int);
        let ghost old_out = out@;
        match find_exec(s, sep, i) {
            Some(k) => {
                let ghost tail = split_from(s@, sep@, k + sep.len());
                assert(rest == seq![s@.subrange(i as int, k as int)].add(tail));
                assert(rest[0] == s@.subrange(i as int, k as int));
                assert(range_holds(s@, (i, k), split(s@, sep@)[old_out.len() as int]));
                out.push((i, k));
                i = k + sep.len();
                assert forall|m: int| 0 <= m < tail.len() implies #[trigger] tail[m] == split(
                    s@,
                    sep@,
                )[out@.len() + m] by {
                    assert(tail[m] == rest[m + 1]);
                }
                assert forall|m: int| 0 <= m < out@.len() implies range_holds(
                    s@,
                    #[trigger] out@[m],
                    split(s@, sep@)[m],
                ) by {
                    if m < old_out.len() {
                        assert(out@[m] == old_out[m]);
                    }
                }
            },
            None => {
                assert(rest == seq![s@.subrange(i as int, s.len() as int)]);
                assert(rest[0] == s@.subrange(i as int, s.len() as int));
                assert(range_holds(s@, (i, s.len()), split(s@, sep@)[old_out.len() as int]));
                out.push((i, s.len()));
                assert forall|m: int| 0 <= m < out@.len() implies range_holds(
                    s@,
                    #[trigger] out@[m],
                    split(s@, sep@)[m],
                ) by {
                    if m < old_out.len() {
                        assert(out@[m] == old_out[m]);
                    }
                }
                return out;
            },
        }
    }
}

/// Whether `s` reads `lit`.
pub fn str_is(s: &str, lit: &str) -> (r: bool)
    ensures
        r == (s@ == lit@),
{
    let v = chars_of(s);
    assert(v@.subrange(0, v@.len() as int) =~= v@);
    range_is(&v, 0, v.len(), lit)
}

/// Scanning for `c` from `i` stops at `k` when `k` is the first `c` or the end.
pub proof fn lemma_scan_to_stops(t: Seq<char>, c: char, i: int, k: int)
    requires
        0 <= i <= k <= t.len(),
        forall|j: int| i <= j < k ==> t[j] != c,
        k == t.len() || t[k] == c,
    ensures
        scan_to(t, c, i) == k,
    decreases k - i,
{
    if i < k {
        lemma_scan_to_stops(t, c, i + 1, k);
    }
}

/// Scanning for `c` from `i` stops between `i` and the end.
pub proof fn lemma_scan_to_within(t: Seq<char>, c: char, i: int)
    requires
        0 <= i <= t.len(),
    ensures
        i <= scan_to(t, c, i) <= t.len(),
    decreases t.len() - i,
{
    if i < t.len() {
        lemma_scan_to_within(t, c, i + 1);
    }
}

} // verus!
