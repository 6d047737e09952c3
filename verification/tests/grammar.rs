use schema_faker::parse::{parse_util, InputUtil, ParseError, ShorthandUtil};

fn reference(s: &str) -> Result<InputUtil, ParseError> {
    Ok(InputUtil::Ref { pattern: s.to_string() })
}

fn refused(s: &str) -> Result<InputUtil, ParseError> {
    Err(ParseError { input: s.to_string() })
}

#[test]
fn names_are_read() {
    assert_eq!(parse_util("FirstName"), Ok(InputUtil::FirstName));
    assert_eq!(parse_util("LastName"), Ok(InputUtil::LastName));
}

#[test]
fn text_after_a_name_is_refused() {
    assert_eq!(parse_util("FirstNameX"), refused("FirstNameX"));
    assert_eq!(parse_util("LastName/a"), refused("LastName/a"));
    assert_eq!(parse_util("LastNames"), refused("LastNames"));
}

#[test]
fn references_are_read() {
    assert_eq!(parse_util("a"), reference("a"));
    assert_eq!(parse_util("/a"), reference("/a"));
    assert_eq!(parse_util("a/b_2/_c"), reference("a/b_2/_c"));
    assert_eq!(parse_util("/obj/o2"), reference("/obj/o2"));
    assert_eq!(parse_util("First"), reference("First"));
    assert_eq!(parse_util("xFirstName"), reference("xFirstName"));
}

#[test]
fn malformed_references_are_refused() {
    for s in ["", "/", "a/", "a//b", "//a", "1a", "a/2b", "a-b", "a b", "é"] {
        assert_eq!(parse_util(s), refused(s));
    }
}

#[test]
fn shorthand_from_string() {
    assert_eq!(
        ShorthandUtil::try_from("b".to_string()),
        Ok(ShorthandUtil(InputUtil::Ref { pattern: "b".to_string() }))
    );
    assert_eq!(
        ShorthandUtil::try_from("a/".to_string()),
        Err(ParseError { input: "a/".to_string() })
    );
}
