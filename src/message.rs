//! Fetched mail messages and the gateway's escaping of non-ASCII text.
use vstd::prelude::*;
use vstd::utf8::{decode_utf8, valid_utf8};

use crate::text::{
    chars_of, hex_value, hex_value_of, is_hex_digit, is_hex_digit_char, string_from_utf8,
    string_of, utf8_text,
};

verus! {

/// A mail message as fetched: its number in the mailbox, its UID when the
/// server sent one, and the raw header and text bytes when they were fetched.
pub struct Message {
    pub uid: Option<u32>,
    pub seq: u32,
    pub header: Option<Vec<u8>>,
    pub text: Option<Vec<u8>>,
}

pub struct MessageView {
    pub uid: Option<u32>,
    pub seq: u32,
    pub header: Option<Seq<u8>>,
    pub text: Option<Seq<u8>>,
}

pub open spec fn bytes_view(b: Option<Vec<u8>>) -> Option<Seq<u8>> {
    match b {
        Some(v) => Some(v@),
        None => None,
    }
}

impl View for Message {
    type V = MessageView;

    open spec fn view(&self) -> MessageView {
        MessageView {
            uid: self.uid,
            seq: self.seq,
            header: bytes_view(self.header),
            text: bytes_view(self.text),
        }
    }
}

/// The byte written by two hex digits.
pub open spec fn hex_byte(hi: char, lo: char) -> u8 {
    (hex_value(hi) * 16 + hex_value(lo)) as u8
}

/// What a complete escape `=XX=XX` stands for: the text of the two bytes
/// read as UTF-8, or U+FFFD when they are not valid UTF-8.
pub open spec fn escape_text(b: Seq<char>) -> Seq<char> {
    let bytes = seq![hex_byte(b[1], b[2]), hex_byte(b[4], b[5])];
    if valid_utf8(bytes) {
        decode_utf8(bytes)
    } else {
        seq!['\u{FFFD}']
    }
}

/// Whether `c` may stand at position `pos` (1 to 5) of an escape `=XX=XX`.
pub open spec fn fits_escape(pos: nat, c: char) -> bool {
    if pos == 3 {
        c == '='
    } else {
        is_hex_digit(c)
    }
}

/// The decoded text of `s` from position `i` on, where `pending` holds the
/// start of an escape begun before `i`.
///
/// Characters outside an escape are copied. An escape starts at `=`; a `=`
/// directly followed by `\r\n` is a soft line break and vanishes with them.
/// A complete escape `=XX=XX` is replaced by what it stands for. A
/// character that cannot continue the escape ends it, and the escape is
/// kept as it was written (a `=` then starts a new one); so is an escape
/// still open at the end of the input.
pub open spec fn decode_from(s: Seq<char>, i: int, pending: Seq<char>) -> Seq<char>
    decreases s.len() - i,
{
    if i < 0 || i >= s.len() {
        pending
    } else {
        let c = s[i];
        if pending.len() == 0 {
            if c == '=' {
                decode_from(s, i + 1, seq!['='])
            } else {
                seq![c] + decode_from(s, i + 1, seq![])
            }
        } else if pending.len() == 1 && c == '\r' && i + 1 < s.len() && s[i + 1] == '\n' {
            decode_from(s, i + 2, seq![])
        } else if fits_escape(pending.len(), c) {
            if pending.len() + 1 == 6 {
                escape_text(pending.push(c)) + decode_from(s, i + 1, seq![])
            } else {
                decode_from(s, i + 1, pending.push(c))
            }
        } else if c == '=' {
            pending + decode_from(s, i + 1, seq!['='])
        } else {
            pending + seq![c] + decode_from(s, i + 1, seq![])
        }
    }
}

/// The decoded text of a whole mail body.
pub open spec fn decoded(s: Seq<char>) -> Seq<char> {
    decode_from(s, 0, seq![])
}

/// Appends what the complete escape in `buf` stands for.
fn push_escape(out: &mut Vec<char>, buf: &Vec<char>)
    requires
        buf.len() == 6,
        is_hex_digit(buf@[1]) && is_hex_digit(buf@[2]) && is_hex_digit(buf@[4]) && is_hex_digit(
            buf@[5],
        ),
    ensures
        final(out)@ == old(out)@ + escape_text(buf@),
{
    let ghost start = out@;
    let hi = hex_value_of(buf[1]) * 16 + hex_value_of(buf[2]);
    let lo = hex_value_of(buf[4]) * 16 + hex_value_of(buf[5]);
    let bytes: Vec<u8> = vec![hi, lo];
    assert(bytes@ =~= seq![hex_byte(buf@[1], buf@[2]), hex_byte(buf@[4], buf@[5])]);
    match string_from_utf8(bytes) {
        Some(text) => {
            let cs = chars_of(text.as_str());
            push_all(out, &cs);
        },
        None => {
            out.push('\u{FFFD}');
        },
    }
}

/// Appends the characters of `v`.
fn push_all(out: &mut Vec<char>, v: &Vec<char>)
    ensures
        final(out)@ == old(out)@ + v@,
{
    let ghost start = out@;
    let mut k: usize = 0;
    while k < v.len()
        invariant
            k <= v.len(),
            out@ == start + v@.take(k as int),
        decreases v.len() - k,
    {
        out.push(v[k]);
        k += 1;
        assert(out@ =~= start + v@.take(k as int));
    }
    assert(v@.take(k as int) =~= v@);
}

/// Whether `c` may stand at position `pos` of an escape `=XX=XX`.
fn fits_escape_exec(pos: usize, c: char) -> (r: bool)
    ensures
        r == fits_escape(pos as nat, c),
{
    if pos == 3 {
        c == '='
    } else {
        is_hex_digit_char(c)
    }
}

/// Decodes the gateway's escaping: `=XX=XX` pairs of hex-escaped bytes become
/// the character they encode in UTF-8, soft line breaks (`=` before `\r\n`)
/// are removed, and everything else, incomplete escapes included, is kept.
pub fn mail_str_decode_unicode(str: &str) -> (r: String)
    ensures
        r@ == decoded(str@),
{
    let s = chars_of(str);
    let mut out: Vec<char> = Vec::new();
    let mut buf: Vec<char> = Vec::new();
    let mut i: usize = 0;
    while i < s.len()
        invariant
            i <= s.len(),
            buf.len() < 6,
            buf.len() > 0 ==> buf@[0] == '=',
            forall|k: int| 1 <= k < buf.len() ==> fits_escape(k as nat, #[trigger] buf@[k]),
            decoded(s@) == out@ + decode_from(s@, i as int, buf@),
        decreases s.len() - i,
    {
        let c = s[i];
        if buf.len() == 0 {
            if c == '=' {
                buf.push('=');
                assert(buf@ =~= seq!['=']);
            } else {
                assert(buf@ =~= seq![]);
                out.push(c);
                assert(decoded(s@) =~= out@ + decode_from(s@, i + 1, buf@));
            }
            i += 1;
        } else if buf.len() == 1 && c == '\r' && i + 1 < s.len() && s[i + 1] == '\n' {
            i += 2;
            buf = Vec::new();
            assert(buf@ =~= seq![]);
        } else if fits_escape_exec(buf.len(), c) {
            buf.push(c);
            i += 1;
            if buf.len() == 6 {
                assert(fits_escape(1, buf@[1]) && fits_escape(2, buf@[2]));
                assert(fits_escape(4, buf@[4]) && fits_escape(5, buf@[5]));
                push_escape(&mut out, &buf);
                buf = Vec::new();
                assert(buf@ =~= seq![]);
                assert(decoded(s@) =~= out@ + decode_from(s@, i as int, buf@));
            }
        } else {
            let ghost old_out = out@;
            let ghost old_buf = buf@;
            push_all(&mut out, &buf);
            if c == '=' {
                buf = Vec::new();
                buf.push('=');
                assert(buf@ =~= seq!['=']);
                assert(decoded(s@) =~= out@ + decode_from(s@, i + 1, buf@));
            } else {
                out.push(c);
                buf = Vec::new();
                assert(buf@ =~= seq![]);
                assert(decoded(s@) =~= out@ + decode_from(s@, i + 1, buf@));
            }
            i += 1;
        }
    }
    push_all(&mut out, &buf);
    assert(out@ =~= decoded(s@));
    string_of(out.as_slice())
}

/// Decoding leaves text without `=` unchanged.
pub proof fn lemma_decode_plain_text(s: Seq<char>)
    requires
        forall|k: int| 0 <= k < s.len() ==> s[k] != '=',
    ensures
        decoded(s) == s,
{
    lemma_decode_plain_from(s, 0);
    assert(s.skip(0) =~= s);
}

proof fn lemma_decode_plain_from(s: Seq<char>, i: int)
    requires
        0 <= i <= s.len(),
        forall|k: int| 0 <= k < s.len() ==> s[k] != '=',
    ensures
        decode_from(s, i, seq![]) == s.skip(i),
    decreases s.len() - i,
{
    if i < s.len() {
        lemma_decode_plain_from(s, i + 1);
        assert(s.skip(i) =~= seq![s[i]] + s.skip(i + 1));
    } else {
        assert(s.skip(i) =~= seq![]);
    }
}

proof fn lemma_decode_shift(x: Seq<char>, q: Seq<char>, j: int, pending: Seq<char>)
    requires
        0 <= j <= q.len(),
    ensures
        decode_from(x + q, x.len() + j, pending) == decode_from(q, j, pending),
    decreases q.len() - j,
{
    let s = x + q;
    let i = x.len() + j;
    if j < q.len() {
        assert(s[i] == q[j]);
        if j + 1 < q.len() {
            assert(s[i + 1] == q[j + 1]);
        }
        lemma_decode_shift(x, q, j + 1, seq![]);
        lemma_decode_shift(x, q, j + 1, seq!['=']);
        if j + 2 <= q.len() {
            lemma_decode_shift(x, q, j + 2, seq![]);
        }
        lemma_decode_shift(x, q, j + 1, pending.push(q[j]));
    }
}

proof fn lemma_decode_plain_prefix(p: Seq<char>, r: Seq<char>, j: int)
    requires
        0 <= j <= p.len(),
        forall|k: int| 0 <= k < p.len() ==> p[k] != '=',
    ensures
        decode_from(p + r, j, seq![]) == p.skip(j) + decode_from(p + r, p.len() as int, seq![]),
    decreases p.len() - j,
{
    if j < p.len() {
        lemma_decode_plain_prefix(p, r, j + 1);
        assert((p + r)[j] == p[j]);
        assert(p.skip(j) =~= seq![p[j]] + p.skip(j + 1));
    } else {
        assert(p.skip(j) =~= Seq::<char>::empty());
    }
}

/// Whether `e` is the start of an escape `=XX=XX` that is not yet complete.
pub open spec fn open_escape(e: Seq<char>) -> bool {
    &&& 1 <= e.len() < 6
    &&& e[0] == '='
    &&& forall|k: int| 1 <= k < e.len() ==> fits_escape(k as nat, #[trigger] e[k])
}

proof fn lemma_decode_open_escape(s: Seq<char>, i: int, e: Seq<char>, m: int)
    requires
        open_escape(e),
        1 <= m <= e.len(),
        0 <= i,
        i + e.len() <= s.len(),
        forall|k: int| 0 <= k < e.len() ==> #[trigger] s[i + k] == e[k],
        e.len() > 1 ==> !(s[i + 1] == '\r'),
    ensures
        decode_from(s, i + 1, e.take(1)) == decode_from(s, i + m, e.take(m)),
    decreases m,
{
    if m > 1 {
        lemma_decode_open_escape(s, i, e, m - 1);
        let pm = e.take(m - 1);
        assert(s[i + (m - 1)] == e[m - 1]);
        assert(fits_escape((m - 1) as nat, e[m - 1]));
        assert(pm.push(e[m - 1]) =~= e.take(m));
        if m - 1 == 1 {
            assert(s[i + 1] != '\r');
        }
    }
}

/// An incomplete escape ended by a character that cannot continue it is
/// kept as it was written, with that character, and decoding goes on after
/// it: decoding `p + e + c + q`, where `p` holds no `=`, gives
/// `p + e + c` followed by the decoded `q`.
pub proof fn lemma_incomplete_escape_kept(p: Seq<char>, e: Seq<char>, c: char, q: Seq<char>)
    requires
        forall|k: int| 0 <= k < p.len() ==> p[k] != '=',
        open_escape(e),
        c != '=',
        !fits_escape(e.len() as nat, c),
        e.len() == 1 ==> c != '\r',
    ensures
        decoded(p + e + seq![c] + q) == p + e + seq![c] + decoded(q),
{
    let x = e + seq![c];
    let s = p + x + q;
    assert(p + e + seq![c] + q =~= s);
    lemma_decode_plain_prefix(p, x + q, 0);
    assert(p + (x + q) =~= s);
    assert(p.skip(0) =~= p);
    let i = p.len() as int;
    assert forall|k: int| 0 <= k < e.len() implies #[trigger] s[i + k] == e[k] by {}
    assert(s[i + e.len()] == c);
    if e.len() > 1 {
        assert(s[i + 1] == e[1]);
        assert(fits_escape(1, e[1]));
    }
    assert(e.take(1) =~= seq!['=']);
    lemma_decode_open_escape(s, i, e, e.len() as int);
    assert(e.take(e.len() as int) =~= e);
    assert(s[i] == '=');
    lemma_decode_shift(p + x, q, 0, seq![]);
    assert(p + x + q =~= s);
    assert((p + x).len() == i + e.len() + 1);
    let j = i + e.len();
    assert(decode_from(s, i, seq![]) == decode_from(s, i + 1, seq!['=']));
    assert(decode_from(s, j, e) == e + seq![c] + decode_from(s, j + 1, seq![]));
    assert(decode_from(s, j + 1, seq![]) == decoded(q));
    assert(decoded(s) == p + decode_from(s, i, seq![]));
    assert(decoded(s) =~= p + e + seq![c] + decoded(q));
}

} // verus!
