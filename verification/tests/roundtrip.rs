use cw2::parsing::{to_cw2, try_parse_cw2, try_to_cw2};

#[test]
fn round_trip_recovers_reason_and_content() {
    let cases = [
        ("", ""),
        ("FOO", " BAR"),
        ("nested [ok] here", "content"),
        ("[", "x"),
        ("]", "y"),
        ("][", "z"),
        ("[[[", ""),
        ("]]]", ""),
        ("[[]", "mix"),
        ("[]]", "mix"),
        ("\x10", "esc"),
        ("\x10\x10[]", "esc"),
        ("a\x10b", "esc"),
        ("\x10]", "\x10"),
    ];
    for (reason, content) in &cases {
        let line = to_cw2(reason, content);
        assert_eq!(try_parse_cw2(&line), Some(((*reason).to_string(), *content)));
    }
}

#[test]
fn round_trip_multibyte() {
    let line = to_cw2("h\u{e9}llo [w\u{f6}rld", "c\u{f6}ntent ]]");
    assert_eq!(
        try_parse_cw2(&line),
        Some(("h\u{e9}llo [w\u{f6}rld".to_string(), "c\u{f6}ntent ]]"))
    );
}

#[test]
fn lenient_entry_builds_canonical_line() {
    assert_eq!(try_to_cw2("[thing] message"), Some("[CW thing] message".to_string()));
    assert_eq!(try_to_cw2("no brackets"), None);
    assert_eq!(try_to_cw2("[unclosed"), None);
    assert_eq!(try_to_cw2(""), None);
    assert_eq!(try_to_cw2("]backwards["), None);
}

#[test]
fn decode_needs_the_exact_marker() {
    assert_eq!(try_parse_cw2("[Content Hidden: FOO] BAR"), None);
    assert_eq!(try_parse_cw2("[cw FOO] BAR"), None);
    assert_eq!(try_parse_cw2("[CWFOO] BAR"), None);
    assert_eq!(try_parse_cw2("FOO] BAR"), None);
    assert_eq!(try_parse_cw2(""), None);
    assert_eq!(try_parse_cw2("[CW "), None);
}

#[test]
fn boundary_encodings() {
    assert_eq!(to_cw2("", ""), "[CW ]");
    assert_eq!(to_cw2("[", ""), "[CW \x10[]");
    assert_eq!(to_cw2("]", ""), "[CW \x10]]");
    assert_eq!(to_cw2("[[]", ""), "[CW [\x10[]]");
    assert_eq!(to_cw2("\x10", ""), "[CW \x10\x10]");
    assert_eq!(try_parse_cw2("[CW FOO] BAR"), Some(("FOO".to_string(), " BAR")));
    assert_eq!(try_parse_cw2("[CW FOO\x10]] BAR"), Some(("FOO]".to_string(), " BAR")));
    assert_eq!(try_parse_cw2("[CW FOO\x10] BAR"), None);
    assert_eq!(try_parse_cw2("message"), None);
}

#[test]
fn one_envelope_is_stripped_at_a_time() {
    let line = to_cw2("CW FOO", " BAR");
    assert_eq!(line, "[CW CW FOO] BAR");
    assert_eq!(try_parse_cw2(&line), Some(("CW FOO".to_string(), " BAR")));
    assert_eq!(try_parse_cw2("[CW [CW x]]y"), Some(("[CW x]".to_string(), "y")));
}
