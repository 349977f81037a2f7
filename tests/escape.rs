use xstream_util::unescape_delimiter;

#[test]
fn parse_null_escape() {
    assert_eq!(unescape_delimiter(r"\0"), "\0");
}

#[test]
fn parse_newline_escape() {
    assert_eq!(unescape_delimiter(r"\n"), "\n");
}

#[test]
fn parse_newline_raw() {
    assert_eq!(unescape_delimiter("\n"), "\n");
}

#[test]
fn parse_extra_space() {
    assert_eq!(unescape_delimiter("\n "), "\n ");
}

#[test]
fn every_known_escape() {
    assert_eq!(
        unescape_delimiter(r"\0\a\b\v\f\n\r\t\e\E\\"),
        "\0\u{07}\u{08}\u{0B}\u{0C}\n\r\t\u{1B}\u{1B}\\"
    );
}

#[test]
fn unknown_escape_is_kept() {
    assert_eq!(unescape_delimiter(r"\q,"), "\\q,");
}

#[test]
fn trailing_backslash_becomes_slash() {
    assert_eq!(unescape_delimiter("ab\\"), "ab/");
}

#[test]
fn empty_stays_empty() {
    assert_eq!(unescape_delimiter(""), "");
}

#[test]
fn multibyte_characters_pass_through() {
    assert_eq!(unescape_delimiter("é\\tü"), "é\tü");
}
