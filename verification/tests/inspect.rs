use std::collections::HashMap;

use schema_faker::inspect::{find_ref_parts, inspect_input_declaration, ref_to_pointer, Levels, RefError};
use schema_faker::parse::{InputDeclaration, InputUtil, ShorthandUtil};
use schema_faker::pointer::Pointer;
use serde_json::Value;

/// The pointer that an RFC 6901 string names, read by `jsonptr`.
fn b(s: &'static str) -> Pointer {
    let p = jsonptr::Pointer::from_static(s);
    Pointer::from_tokens(p.tokens().map(|t| t.decoded().into_owned()).collect())
}

fn parse_ptr(s: &str) -> Pointer {
    let p = jsonptr::PointerBuf::parse(s).unwrap();
    Pointer::from_tokens(p.tokens().map(|t| t.decoded().into_owned()).collect())
}

fn pref(cur: &str, pat: &str) -> Result<(Pointer, Pointer, Pointer), RefError> {
    let cur = parse_ptr(cur);
    let (pat, pat_relative) = ref_to_pointer(pat);
    find_ref_parts(&cur, &pat, pat_relative)
}

fn tup(a: &str, b: &str, c: &str) -> (Pointer, Pointer, Pointer) {
    (parse_ptr(a), parse_ptr(b), parse_ptr(c))
}

/// A declaration read from JSON, the way the input is read.
fn decl_from(v: &Value) -> InputDeclaration {
    match v {
        Value::String(s) => InputDeclaration::ShorthandUtil(ShorthandUtil::try_from(s.clone()).unwrap()),
        Value::Object(m) => {
            if let Some(Value::String(tag)) = m.get("#util") {
                match tag.as_str() {
                    "Ref" => {
                        let pattern = m.get("pattern").and_then(|p| p.as_str()).unwrap().to_string();
                        return InputDeclaration::LonghandUtil(InputUtil::Ref { pattern });
                    }
                    "FirstName" => return InputDeclaration::LonghandUtil(InputUtil::FirstName),
                    "LastName" => return InputDeclaration::LonghandUtil(InputUtil::LastName),
                    _ => {}
                }
            }
            InputDeclaration::Object(m.iter().map(|(k, v)| (k.clone(), decl_from(v))).collect())
        }
        _ => panic!("not a declaration"),
    }
}

fn decl_from_str(s: &str) -> InputDeclaration {
    decl_from(&serde_json::from_str::<Value>(s).unwrap())
}

fn is_before(v: &Vec<String>, a: &str, b: &str) -> bool {
    let a_idx = v.iter().position(|x| x == a).unwrap();
    let b_idx = v.iter().position(|x| x == b).unwrap();
    a_idx < b_idx
}

fn deps_correct(fields: &Levels, pairs: HashMap<&str, &[(&str, &str)]>) -> bool {
    for k in 0..fields.len() {
        let (level_name, ordered_fields) = fields.entry(k);
        let ordered: Vec<String> = ordered_fields.iter().map(|p| p.to_encoded()).collect();
        for (a, b) in *pairs.get(level_name.to_encoded().as_str()).unwrap() {
            if is_before(&ordered, a, b) {
                return false;
            }
        }
    }
    true
}

#[test]
fn test_ref_to_pointer() {
    assert_eq!(ref_to_pointer("b"), (b("/b"), true));
    assert_eq!(ref_to_pointer("/b"), (b("/b"), false));

    assert_eq!(ref_to_pointer("//a/df//bb/d"), (b("//a/df//bb/d"), false));
    assert_eq!(
        jsonptr::PointerBuf::parse("//a/df//bb/d").unwrap(),
        jsonptr::Pointer::from_static("//a/df//bb/d")
    );
    assert_eq!(ref_to_pointer("a/df//bb/d"), (b("/a/df//bb/d"), true));

    assert_eq!(ref_to_pointer("//a/~df//bb/d"), (b("//a/~0df//bb/d"), false));
    assert!(jsonptr::PointerBuf::parse("//a/~df//bb/d").is_err());
    assert_eq!(ref_to_pointer("a/~df//bb/d"), (b("/a/~0df//bb/d"), true));
}

#[test]
fn test_find_ref_parts() {
    assert_eq!(pref("/b", "/a").unwrap(), tup("", "/b", "/a"));

    assert_eq!(pref("/b", "a").unwrap(), tup("", "/b", "/a"));

    assert_eq!(pref("/b/c", "a").unwrap(), tup("/b", "/c", "/a"));

    assert_eq!(pref("/b/c", "/a").unwrap(), tup("", "/b", "/a"));

    assert_eq!(pref("/b", "/a/d/e").unwrap(), tup("", "/b", "/a"));

    assert!(pref("/b/c", "/b/c").unwrap_err().message().contains("pointing to itself?"));

    assert!(pref("/b/c", "/b/c/d").unwrap_err().message().contains("this doesn't make sense?"));

    assert!(pref("/b/c/d", "/b/c").unwrap_err().message().contains("this doesn't make sense?"));
}

#[test]
fn test_inspect_input_declaration() {
    let decl = decl_from_str(
        r##"{
        "a": "FirstName",
        "b": { "#util": "Ref", "pattern": "a" },
        "c": { "#util": "Ref", "pattern": "/b" }
    }"##,
    );

    let deps = inspect_input_declaration(decl).unwrap().0;
    assert!(deps_correct(
        &deps,
        HashMap::from([("", [("/b", "/a"), ("/c", "/b")].as_slice())])
    ));
    assert_eq!(deps.len(), 1);
    assert_eq!(deps.get(&b("")).unwrap().len(), 3);

    let decl = decl_from_str(
        r##"{
        "obj": {
            "o3": "/a",
            "o2": "o1",
            "o1": "FirstName",
            "o4": "/obj/o2"
        },
        "a": "FirstName",
        "d": "obj/o3",
        "b": "/a",
        "c": "b"
    }"##,
    );

    let deps = inspect_input_declaration(decl).unwrap().0;
    assert!(deps_correct(
        &deps,
        HashMap::from([
            ("", [("/b", "/a"), ("/obj", "/a"), ("/d", "/obj"), ("/c", "/b")].as_slice()),
            ("/obj", &[("/o2", "/o1"), ("/o4", "/o2")]),
        ])
    ));
    assert_eq!(deps.len(), 2);
    assert_eq!(deps.get(&b("")).unwrap().len(), 5);
    assert_eq!(deps.get(&b("/obj")).unwrap().len(), 3);

    let decl = decl_from_str(
        r##"{
        "a": "FirstName",
        "b": "LastName",
        "obj": { "o2": "o1", "o1": "FirstName" },
        "s": { "k1": "FirstName", "k2": "LastName" }
    }"##,
    );

    let deps = inspect_input_declaration(decl).unwrap().0;
    assert!(deps_correct(&deps, HashMap::from([("/obj", [("/o2", "/o1")].as_slice())])));
    assert_eq!(deps.len(), 1);
    assert_eq!(deps.get(&b("")), None);
    assert_eq!(deps.get(&b("/s")), None);
    assert_eq!(deps.get(&b("/obj")).unwrap().len(), 2);
}
