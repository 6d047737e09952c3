use fake::locales::Data;
use schema_faker::generate::{generate, Declaration, Locale, Util};
use schema_faker::inspect::{inspect_input_declaration, InspectError, RefError};
use schema_faker::json::{assign, copy_json, resolve_at, JsonValue};
use schema_faker::parse::{InputDeclaration, InputUtil, ShorthandUtil};
use schema_faker::pointer::Pointer;
use schema_faker::utils::zip_longest;

fn short(s: &str) -> InputDeclaration {
    InputDeclaration::ShorthandUtil(ShorthandUtil::try_from(s.to_string()).unwrap())
}

fn object(fields: Vec<(&str, InputDeclaration)>) -> InputDeclaration {
    InputDeclaration::Object(fields.into_iter().map(|(k, v)| (k.to_string(), v)).collect())
}

fn member<'a>(v: &'a JsonValue, key: &str) -> &'a JsonValue {
    match v {
        JsonValue::Object(f) => &f.iter().find(|(k, _)| k == key).unwrap().1,
        _ => panic!("not an object"),
    }
}

fn ptr(tokens: &[&str]) -> Pointer {
    Pointer::from_tokens(tokens.iter().map(|t| t.to_string()).collect())
}

#[test]
fn referenced_field_is_generated_first() {
    // `b` is listed first but depends on `a`.
    let decl = object(vec![("b", short("/a")), ("a", short("FirstName"))]);
    let (levels, decl) = inspect_input_declaration(decl).unwrap();
    assert_eq!(levels.len(), 1);
    let order = levels.get(&Pointer::root()).unwrap();
    assert_eq!(order, &vec![ptr(&["a"]), ptr(&["b"])]);
    let v = generate(levels, Locale::EN, &decl).unwrap();
    let a = member(&v, "a");
    let b = member(&v, "b");
    match (a, b) {
        (JsonValue::String(x), JsonValue::String(y)) => {
            assert_eq!(x, y);
            assert!(!x.is_empty());
        }
        _ => panic!("names are strings"),
    }
}

#[test]
fn a_name_at_the_root_is_a_string() {
    let decl = short("LastName");
    let (levels, decl) = inspect_input_declaration(decl).unwrap();
    assert_eq!(levels.len(), 0);
    match generate(levels, Locale::DE_DE, &decl).unwrap() {
        JsonValue::String(s) => assert!(!s.is_empty()),
        other => panic!("unexpected {:?}", other),
    }
}

#[test]
fn nested_objects_are_not_found_while_generating() {
    let decl = object(vec![("obj", object(vec![("x", short("FirstName"))]))]);
    let (levels, decl) = inspect_input_declaration(decl).unwrap();
    let e = generate(levels, Locale::EN, &decl).unwrap_err();
    assert_eq!(e.message(), "value not found at /obj");
}

#[test]
fn relative_references_name_siblings() {
    // `b` holds the relative reference `a`, which names its sibling `/a`.
    let decl = object(vec![("b", short("a")), ("a", short("FirstName"))]);
    let (levels, decl) = inspect_input_declaration(decl).unwrap();
    let v = generate(levels, Locale::EN, &decl).unwrap();
    match (member(&v, "a"), member(&v, "b")) {
        (JsonValue::String(x), JsonValue::String(y)) => assert_eq!(x, y),
        _ => panic!("names are strings"),
    }
}

#[test]
fn an_empty_object_generates_an_empty_object() {
    let (levels, decl) = inspect_input_declaration(object(vec![])).unwrap();
    assert_eq!(levels.len(), 0);
    match generate(levels, Locale::EN, &decl).unwrap() {
        JsonValue::Object(f) => assert!(f.is_empty()),
        other => panic!("unexpected {:?}", other),
    }
}

#[test]
fn a_reference_to_a_missing_field_fails_at_its_target() {
    let decl = object(vec![("a", short("/x"))]);
    let (levels, decl) = inspect_input_declaration(decl).unwrap();
    let e = generate(levels, Locale::EN, &decl).unwrap_err();
    assert_eq!(e.message(), "value not found at /x");
}

#[test]
fn generated_objects_have_exactly_the_declared_keys() {
    let decl = object(vec![("c", short("/a")), ("a", short("LastName")), ("b", short("FirstName"))]);
    let (levels, decl) = inspect_input_declaration(decl).unwrap();
    match generate(levels, Locale::FR_FR, &decl).unwrap() {
        JsonValue::Object(f) => {
            let mut keys: Vec<&str> = f.iter().map(|(k, _)| k.as_str()).collect();
            keys.sort();
            assert_eq!(keys, vec!["a", "b", "c"]);
        }
        other => panic!("unexpected {:?}", other),
    }
}

#[test]
fn a_reference_at_the_root_is_refused() {
    let e = inspect_input_declaration(short("/a")).err().unwrap();
    assert!(matches!(e, InspectError::Ref(RefError::Unrelated { .. })));
    assert_eq!(e.message(), "this doesn't make sense?  => /a");
}

#[test]
fn references_in_a_cycle_are_refused() {
    let decl = object(vec![("a", short("b")), ("b", short("a"))]);
    let e = inspect_input_declaration(decl).err().unwrap();
    match &e {
        InspectError::WouldCycle { level, pointing, pointed } => {
            assert_eq!(level, &Pointer::root());
            assert_eq!(pointing, &ptr(&["b"]));
            assert_eq!(pointed, &ptr(&["a"]));
        }
        other => panic!("unexpected {:?}", other),
    }
    assert_eq!(e.message(), "WouldCycle\n\n");
}

#[test]
fn a_field_referencing_itself_is_refused() {
    let e = inspect_input_declaration(object(vec![("a", short("a"))])).err().unwrap();
    assert!(matches!(e, InspectError::WouldCycle { .. }));
    let e = inspect_input_declaration(object(vec![("a", short("/a"))])).err().unwrap();
    assert!(matches!(e, InspectError::Ref(RefError::PointingToItself { .. })));
    assert_eq!(e.message(), "pointing to itself? /a => /a");
}

#[test]
fn inspection_converts_utilities() {
    let decl = object(vec![
        ("a", InputDeclaration::LonghandUtil(InputUtil::FirstName)),
        ("b", short("x/y")),
    ]);
    let (_, d) = inspect_input_declaration(decl).unwrap();
    match d {
        Declaration::Object(f) => {
            assert_eq!(f.len(), 2);
            assert_eq!(f[0].0, "a");
            assert!(matches!(f[0].1, Declaration::Util(Util::FirstName)));
            match &f[1].1 {
                Declaration::Util(Util::Ref { pattern, relative }) => {
                    assert_eq!(pattern, &ptr(&["x", "y"]));
                    assert!(*relative);
                }
                other => panic!("unexpected {:?}", other),
            }
        }
        other => panic!("unexpected {:?}", other),
    }
}

#[test]
fn read_after_write() {
    let v = JsonValue::Object(vec![]);
    let v = assign(v, &ptr(&["k"]), JsonValue::String("x".to_string()));
    let v = assign(v, &ptr(&["k"]), JsonValue::String("y".to_string()));
    let v = assign(v, &ptr(&["m"]), JsonValue::Object(vec![]));
    let v = assign(v, &ptr(&["m", "n"]), JsonValue::Null);
    match resolve_at(&v, &ptr(&["k"])) {
        Some(JsonValue::String(s)) => assert_eq!(s, "y"),
        other => panic!("unexpected {:?}", other),
    }
    assert!(matches!(resolve_at(&v, &ptr(&["m", "n"])), Some(JsonValue::Null)));
    assert!(resolve_at(&v, &ptr(&["k", "z"])).is_none());
    assert!(resolve_at(&v, &ptr(&["q"])).is_none());
    let c = copy_json(&v);
    assert!(matches!(resolve_at(&c, &ptr(&["m"])), Some(JsonValue::Object(_))));
    let r = assign(c, &Pointer::root(), JsonValue::Null);
    assert!(matches!(r, JsonValue::Null));
}

#[test]
fn zip_longest_pads_the_shorter() {
    let z = zip_longest(vec![1, 2, 3], vec!["x"]);
    assert_eq!(z, vec![(Some(1), Some("x")), (Some(2), None), (Some(3), None)]);
    let z = zip_longest(Vec::<u8>::new(), vec![7u8]);
    assert_eq!(z, vec![(None, Some(7u8))]);
    assert!(zip_longest(Vec::<u8>::new(), Vec::<u8>::new()).is_empty());
}

#[test]
fn a_repeated_reference_orders_its_level_once() {
    let decl = object(vec![("a", short("FirstName")), ("b", short("/a")), ("b", short("/a"))]);
    let (levels, _) = inspect_input_declaration(decl).unwrap();
    assert_eq!(levels.get(&Pointer::root()).unwrap(), &vec![ptr(&["a"]), ptr(&["b"])]);
}

#[test]
fn short_and_long_utilities_inspect_alike() {
    let long = object(vec![
        ("b", InputDeclaration::LonghandUtil(InputUtil::Ref { pattern: "a".to_string() })),
        ("a", InputDeclaration::LonghandUtil(InputUtil::FirstName)),
    ]);
    let short_form = object(vec![("b", short("a")), ("a", short("FirstName"))]);
    let (l1, _) = inspect_input_declaration(long).unwrap();
    let (l2, _) = inspect_input_declaration(short_form).unwrap();
    assert_eq!(l1.get(&Pointer::root()), l2.get(&Pointer::root()));
    assert_eq!(l1.get(&Pointer::root()).unwrap(), &vec![ptr(&["a"]), ptr(&["b"])]);
}

#[test]
fn names_come_from_the_locale_lists_of_their_kind() {
    for _ in 0..20 {
        let (levels, decl) = inspect_input_declaration(short("FirstName")).unwrap();
        match generate(levels, Locale::DE_DE, &decl).unwrap() {
            JsonValue::String(s) => assert!(fake::locales::DE_DE::NAME_FIRST_NAME.contains(&s.as_str())),
            other => panic!("unexpected {:?}", other),
        }
        let (levels, decl) = inspect_input_declaration(short("LastName")).unwrap();
        match generate(levels, Locale::JA_JP, &decl).unwrap() {
            JsonValue::String(s) => assert!(fake::locales::JA_JP::NAME_LAST_NAME.contains(&s.as_str())),
            other => panic!("unexpected {:?}", other),
        }
    }
}

#[test]
fn zip_longest_projections_give_back_both_sides() {
    let l = vec![1, 2, 3];
    let r = vec!["x", "y"];
    let z = zip_longest(l.clone(), r.clone());
    let lefts: Vec<i32> = z.iter().filter_map(|p| p.0).collect();
    let rights: Vec<&str> = z.iter().filter_map(|p| p.1).collect();
    assert_eq!(lefts, l);
    assert_eq!(rights, r);
    assert!(z.iter().all(|p| p.0.is_some() || p.1.is_some()));
}
