use cw2::parsing::{parse_cw_helper, to_cw2};

#[test]
fn test_correct_cw_parsing() {
    let tests = [
        ("[CW FOO] BAR", true, Some(("FOO".into(), " BAR"))),
        ("[CW FOO\x10]] BAR", true, Some(("FOO]".into(), " BAR"))),
        ("[CW FOO\x10[] BAR", true, Some(("FOO[".into(), " BAR"))),
        ("[CW FOO\x10] BAR", true, None),
        ("message", true, None),
        ("[CW FOO] BAR", false, Some(("CW FOO".into(), " BAR"))),
        ("[CW FOO\x10]] BAR", false, Some(("CW FOO]".into(), " BAR"))),
        ("[CW FOO\x10[] BAR", false, Some(("CW FOO[".into(), " BAR"))),
        ("[CW FOO\x10] BAR", false, None),
        ("message", false, None),
    ];
    for test in &tests {
        assert_eq!(parse_cw_helper(test.0, test.1), test.2);
    }
}

#[test]
fn test_correct_cw_building() {
    let tests = [
        ("", "", String::from("[CW ]")),
        ("[", "", "[CW \x10[]".into()),
        ("]", "", "[CW \x10]]".into()),
        ("[[]", "", "[CW [\x10[]]".into()),
        ("[]]", "", "[CW []\x10]]".into()),
    ];
    for test in &tests {
        assert_eq!(to_cw2(test.0, test.1), test.2);
    }
}
