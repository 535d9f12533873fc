use emergency_mail::message::mail_str_decode_unicode;

#[test]
fn test_mail_str_decode_unicode_simple() {
    // the required unicode characters:
    assert_eq!(mail_str_decode_unicode("=C3=A4"), "ä");
    assert_eq!(mail_str_decode_unicode("=C3=A4=C3=A4"), "ää");
    assert_eq!(mail_str_decode_unicode("=C3=B6"), "ö");
    assert_eq!(mail_str_decode_unicode("=C3=BC"), "ü");
    assert_eq!(mail_str_decode_unicode("=C3=9F"), "ß");
    assert_eq!(mail_str_decode_unicode("=C3=84"), "Ä");
    assert_eq!(mail_str_decode_unicode("=C3=96"), "Ö");
    assert_eq!(mail_str_decode_unicode("=C3=9C"), "Ü");
    assert_eq!(mail_str_decode_unicode("=F4=90"), "�");

    // with other characters:
    assert_eq!(
        "the quick brown fox jumps over the lazy dog.",
        mail_str_decode_unicode("the quick brown fox jumps over the lazy dog.")
    );
    assert_eq!(
        "the qüick brown fox jumps over the lazy dog.",
        mail_str_decode_unicode("the q=C3=BCick brown fox jumps over the lazy dog.")
    );

    // an incomplete escape is kept as it is:
    assert_eq!(
        "the q=C3=Bick brown fox jumps over the lazy dog.",
        mail_str_decode_unicode("the q=C3=Bick brown fox jumps over the lazy dog.")
    );

    assert_eq!("testa", mail_str_decode_unicode("test=\r\na"));
}

#[test]
fn plain_text_is_unchanged() {
    let s = "Görisgräben 22, ~~Ort~~ \r\n tab\t end";
    assert_eq!(mail_str_decode_unicode(s), s);
    assert_eq!(mail_str_decode_unicode(""), "");
}

#[test]
fn escape_pairs_decode_to_characters() {
    assert_eq!(mail_str_decode_unicode("=C3=A4"), "ä");
    assert_eq!(mail_str_decode_unicode("=C3=9F"), "ß");
    assert_eq!(mail_str_decode_unicode("G=c3=b6ttin"), "Göttin");
    assert_eq!(mail_str_decode_unicode("=41=42"), "AB");
}

#[test]
fn incomplete_escape_followed_by_non_hex_is_kept() {
    assert_eq!(mail_str_decode_unicode("=C3=Bx"), "=C3=Bx");
    assert_eq!(mail_str_decode_unicode("a=G"), "a=G");
}

#[test]
fn invalid_utf8_pair_becomes_replacement_character() {
    assert_eq!(mail_str_decode_unicode("x=80=80y"), "x\u{FFFD}y");
    assert_eq!(mail_str_decode_unicode("=E2=82"), "\u{FFFD}");
}

#[test]
fn soft_line_break_is_removed() {
    assert_eq!(mail_str_decode_unicode("test=\r\na"), "testa");
    assert_eq!(mail_str_decode_unicode("ab=\rc"), "ab=\rc");
    assert_eq!(mail_str_decode_unicode("08:21~~=\r\n~~"), "08:21~~~~");
}

#[test]
fn escape_open_at_end_of_input_is_kept() {
    assert_eq!(mail_str_decode_unicode("abc=C3"), "abc=C3");
    assert_eq!(mail_str_decode_unicode("="), "=");
    assert_eq!(mail_str_decode_unicode("x=C3=B"), "x=C3=B");
}

#[test]
fn only_well_formed_escapes_are_decoded() {
    assert_eq!(mail_str_decode_unicode("=C3A4B"), "=C3A4B");
    assert_eq!(mail_str_decode_unicode("a==C3=A4"), "a=ä");
    assert_eq!(mail_str_decode_unicode("=C3=A=C3=A4"), "=C3=Aä");
}
