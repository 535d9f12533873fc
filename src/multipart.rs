//! Finding the plain-text body of a fetched mail.
use vstd::prelude::*;

use crate::message::{Message, MessageView};
use crate::text::{
    chars_of, contains, find_exec, find_from, is_blank, is_blank_char, is_prefix, range_holds,
    range_is, skip_blank, skip_blank_from, split, split_ranges, string_from_utf8, sub_chars,
    sub_string, trim, trim_end, utf8_text,
};

verus! {

/// The plain text of one part of a multipart body: what follows the part's
/// headers, when a header line starts with `Content-Type: text/plain`.
/// Headers end at the first blank line; a part without one has no headers.
pub open spec fn part_plain_text(part: Seq<char>) -> Option<Seq<char>> {
    match find_from(part, "\r\n\r\n"@, 0) {
        Some(k) => if k > 0 && exists|j: int|
            0 <= j < split(part.take(k), "\r\n"@).len() && is_prefix(
                "Content-Type: text/plain"@,
                #[trigger] split(part.take(k), "\r\n"@)[j],
            ) {
            Some(part.skip(k + 4))
        } else {
            None
        },
        None => None,
    }
}

/// The plain text of the first part, from `i` on, that has one.
pub open spec fn first_plain_text(parts: Seq<Seq<char>>, i: int) -> Option<Seq<char>>
    decreases parts.len() - i,
{
    if i < 0 || i >= parts.len() {
        None
    } else {
        match part_plain_text(parts[i]) {
            Some(t) => Some(t),
            None => first_plain_text(parts, i + 1),
        }
    }
}

/// The plain text of a multipart body. Its first line is the separator that
/// divides the parts; a body without a line break, or whose separator is
/// empty, has none.
pub open spec fn multipart_plain_text(content: Seq<char>) -> Option<Seq<char>> {
    match find_from(content, "\r\n"@, 0) {
        Some(e) => if e > 0 {
            first_plain_text(split(content, content.take(e)), 0)
        } else {
            None
        },
        None => None,
    }
}

/// The rest of the first line of `lines`, from `i` on, that starts with
/// `pre`.
pub open spec fn first_with_prefix(lines: Seq<Seq<char>>, pre: Seq<char>, i: int) -> Option<
    Seq<char>,
>
    decreases lines.len() - i,
{
    if i < 0 || i >= lines.len() {
        None
    } else if is_prefix(pre, lines[i]) {
        Some(lines[i].skip(pre.len() as int))
    } else {
        first_with_prefix(lines, pre, i + 1)
    }
}

/// The value of the `Content-Type` header in raw header bytes.
pub open spec fn content_type_of(header: Seq<u8>) -> Option<Seq<char>> {
    match utf8_text(header) {
        Some(t) => first_with_prefix(split(t, "\r\n"@), "Content-Type: "@, 0),
        None => None,
    }
}

/// The plain text of a fetched message, if it has one: a multipart body gives
/// its plain-text part, a `text/plain` body itself; a body that starts with
/// `--` is taken for multipart whatever the headers say.
pub open spec fn message_body(m: MessageView) -> Option<Seq<char>> {
    match m.text {
        None => None,
        Some(b) => match utf8_text(b) {
            None => None,
            Some(content) => {
                let typed = match m.header {
                    Some(h) => content_type_of(h),
                    None => None,
                };
                if typed is Some && contains(typed->0, "multipart/alternative"@) {
                    multipart_plain_text(content)
                } else if typed is Some && trim(typed->0) == "text/plain"@ {
                    Some(content)
                } else if is_prefix("--"@, content) {
                    multipart_plain_text(content)
                } else {
                    Some(content)
                }
            },
        },
    }
}

/// Whether `s[lo..hi]` starts with `pat`.
fn starts_with_range(s: &Vec<char>, lo: usize, hi: usize, pat: &Vec<char>) -> (r: bool)
    requires
        lo <= hi <= s.len(),
    ensures
        r == is_prefix(pat@, s@.subrange(lo as int, hi as int)),
{
    if pat.len() > hi - lo {
        return false;
    }
    let mut j: usize = 0;
    while j < pat.len()
        invariant
            lo + pat.len() <= hi <= s.len(),
            j <= pat.len(),
            forall|m: int| 0 <= m < j ==> s@[lo + m] == pat@[m],
        decreases pat.len() - j,
    {
        if s[lo + j] != pat[j] {
            assert(s@.subrange(lo as int, hi as int).subrange(0, pat.len() as int)[j as int]
                != pat@[j as int]);
            return false;
        }
        j += 1;
    }
    assert(s@.subrange(lo as int, hi as int).subrange(0, pat.len() as int) =~= pat@);
    true
}

/// The plain text of `part`, if it has one.
fn part_plain_text_exec(part: &Vec<char>) -> (r: Option<String>)
    ensures
        match r {
            Some(t) => part_plain_text(part@) == Some(t@),
            None => part_plain_text(part@) is None,
        },
{
    let blank = chars_of("\r\n\r\n");
    let crlf = chars_of("\r\n");
    let plain = chars_of("Content-Type: text/plain");
    proof {
        reveal_strlit("\r\n\r\n");
        reveal_strlit("\r\n");
    }
    assert(crlf.len() == 2);
    assert(blank.len() == 4);
    match find_exec(part, &blank, 0) {
        None => None,
        Some(k) => {
            if k == 0 {
                return None;
            }
            let headers = sub_chars(part, 0, k);
            assert(headers@ =~= part@.take(k as int));
            let lines = split_ranges(&headers, &crlf);
            let ghost ls = split(part@.take(k as int), "\r\n"@);
            let mut j: usize = 0;
            while j < lines.len()
                invariant
                    j <= lines.len(),
                    lines@.len() == ls.len(),
                    ls == split(headers@, crlf@),
                    ls == split(part@.take(k as int), "\r\n"@),
                    plain@ == "Content-Type: text/plain"@,
                    0 < k,
                    k + 4 <= part.len(),
                    find_from(part@, "\r\n\r\n"@, 0) == Some(k as int),
                    forall|m: int|
                        0 <= m < lines@.len() ==> range_holds(
                            headers@,
                            #[trigger] lines@[m],
                            ls[m],
                        ),
                    forall|m: int| 0 <= m < j ==> !is_prefix(plain@, #[trigger] ls[m]),
                decreases lines.len() - j,
            {
                let (lo, hi) = lines[j];
                assert(range_holds(headers@, lines@[j as int], ls[j as int]));
                if starts_with_range(&headers, lo, hi, &plain) {
                    assert(is_prefix("Content-Type: text/plain"@, ls[j as int]));
                    return Some(sub_string(part, k + 4, part.len()));
                }
                j += 1;
            }
            None
        },
    }
}

/// Extracts the plain-text part of a multipart mail body, which starts with
/// the separator line. Returns `None` when no part is plain text, and for a
/// body that is not multipart.
pub fn extract_multipart_plain_text(content: &str) -> (r: Option<String>)
    ensures
        match r {
            Some(t) => multipart_plain_text(content@) == Some(t@),
            None => multipart_plain_text(content@) is None,
        },
{
    let c = chars_of(content);
    let crlf = chars_of("\r\n");
    match find_exec(&c, &crlf, 0) {
        None => None,
        Some(e) => {
            if e == 0 {
                return None;
            }
            let sep = sub_chars(&c, 0, e);
            assert(sep@ =~= c@.take(e as int));
            let parts = split_ranges(&c, &sep);
            let ghost ps = split(c@, sep@);
            proof {
                reveal_strlit("\r\n");
            }
            assert(multipart_plain_text(content@) == first_plain_text(ps, 0));
            let mut i: usize = 0;
            while i < parts.len()
                invariant
                    i <= parts.len(),
                    parts@.len() == ps.len(),
                    sep@ == c@.take(e as int),
                    ps == split(c@, sep@),
                    forall|m: int|
                        0 <= m < parts@.len() ==> range_holds(c@, #[trigger] parts@[m], ps[m]),
                    first_plain_text(ps, 0) == first_plain_text(ps, i as int),
                    multipart_plain_text(content@) == first_plain_text(ps, 0),
                decreases parts.len() - i,
            {
                let (lo, hi) = parts[i];
                assert(range_holds(c@, parts@[i as int], ps[i as int]));
                let part = sub_chars(&c, lo, hi);
                assert(part@ == ps[i as int]);
                match part_plain_text_exec(&part) {
                    Some(t) => {
                        return Some(t);
                    },
                    None => {},
                }
                i += 1;
            }
            None
        },
    }
}

/// The value of the `Content-Type` header in raw header bytes.
fn headers_get_content_type(headers: Vec<u8>) -> (r: Option<Vec<char>>)
    ensures
        match r {
            Some(t) => content_type_of(headers@) == Some(t@),
            None => content_type_of(headers@) is None,
        },
{
    let ghost bytes = headers@;
    let text = match string_from_utf8(headers) {
        Some(t) => t,
        None => {
            return None;
        },
    };
    let t = chars_of(text.as_str());
    let crlf = chars_of("\r\n");
    let pre = chars_of("Content-Type: ");
    proof {
        reveal_strlit("\r\n");
    }
    assert(crlf.len() == 2);
    let lines = split_ranges(&t, &crlf);
    let ghost ls = split(t@, crlf@);
    let mut j: usize = 0;
    while j < lines.len()
        invariant
            j <= lines.len(),
            lines@.len() == ls.len(),
            ls == split(t@, crlf@),
            utf8_text(bytes) == Some(t@),
            bytes == headers@,
            crlf@ == "\r\n"@,
            pre@ == "Content-Type: "@,
            forall|m: int| 0 <= m < lines@.len() ==> range_holds(t@, #[trigger] lines@[m], ls[m]),
            first_with_prefix(ls, pre@, 0) == first_with_prefix(ls, pre@, j as int),
        decreases lines.len() - j,
    {
        let (lo, hi) = lines[j];
        assert(range_holds(t@, lines@[j as int], ls[j as int]));
        if starts_with_range(&t, lo, hi, &pre) {
            assert(ls[j as int].skip(pre@.len() as int) =~= t@.subrange(lo + pre.len(), hi as int));
            assert(first_with_prefix(ls, pre@, j as int) == Some(ls[j as int].skip(pre@.len() as int)));
            assert(content_type_of(bytes) == first_with_prefix(ls, pre@, 0));
            let value = sub_chars(&t, lo + pre.len(), hi);
            assert(content_type_of(bytes) == Some(value@));
            return Some(value);
        }
        j += 1;
    }
    None
}

/// Whether `t`, trimmed of surrounding whitespace, reads `lit`.
fn trimmed_is(t: &Vec<char>, lit: &str) -> (r: bool)
    ensures
        r == (trim(t@) == lit@),
{
    let lo = skip_blank_from(t, 0);
    let mut hi: usize = t.len();
    assert(t@.skip(lo as int) =~= t@.subrange(lo as int, hi as int));
    while hi > lo && is_blank_char(t[hi - 1])
        invariant
            lo <= hi <= t.len(),
            trim(t@) == trim_end(t@.subrange(lo as int, hi as int)),
        decreases hi,
    {
        assert(t@.subrange(lo as int, hi as int).drop_last() =~= t@.subrange(lo as int, hi - 1));
        hi -= 1;
    }
    range_is(t, lo, hi, lit)
}

/// The plain-text body of a fetched message, or `None` when it has no text,
/// the text is not UTF-8, or a multipart body has no plain-text part.
pub fn get_message_body(message: Message) -> (r: Option<String>)
    ensures
        match r {
            Some(t) => message_body(message@) == Some(t@),
            None => message_body(message@) is None,
        },
{
    let ghost m = message@;
    let body = match message.text {
        Some(b) => b,
        None => {
            return None;
        },
    };
    let content = match string_from_utf8(body) {
        Some(c) => c,
        None => {
            return None;
        },
    };
    let typed = match message.header {
        Some(h) => headers_get_content_type(h),
        None => None,
    };
    match typed {
        Some(ct) => {
            let multi = chars_of("multipart/alternative");
            if find_exec(&ct, &multi, 0).is_some() {
                return extract_multipart_plain_text(content.as_str());
            }
            if trimmed_is(&ct, "text/plain") {
                return Some(content);
            }
        },
        None => {},
    }
    let c = chars_of(content.as_str());
    let dashes = chars_of("--");
    if starts_with_range(&c, 0, c.len(), &dashes) {
        assert(c@.subrange(0, c@.len() as int) =~= c@);
        return extract_multipart_plain_text(content.as_str());
    }
    assert(c@.subrange(0, c@.len() as int) =~= c@);
    Some(content)
}

} // verus!
