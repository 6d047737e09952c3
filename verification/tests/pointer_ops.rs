use schema_faker::inspect::ref_to_pointer;
use schema_faker::pointer::Pointer;

fn ptr(tokens: &[&str]) -> Pointer {
    Pointer::from_tokens(tokens.iter().map(|t| t.to_string()).collect())
}

#[test]
fn push_then_pop_restores() {
    let mut p = ptr(&["a", "b"]);
    p.push_back("c");
    assert_eq!(p, ptr(&["a", "b", "c"]));
    assert_eq!(p.pop_back(), Some("c".to_string()));
    assert_eq!(p, ptr(&["a", "b"]));
    let mut r = Pointer::root();
    assert_eq!(r.pop_back(), None);
    assert!(r.is_root());
}

#[test]
fn parent_first_and_tokens() {
    let p = ptr(&["a", "b"]);
    assert_eq!(p.parent(), Some(ptr(&["a"])));
    assert_eq!(Pointer::root().parent(), None);
    assert_eq!(p.first(), Some("a".to_string()));
    assert_eq!(Pointer::root().first(), None);
    assert_eq!(p.len(), 2);
    assert_eq!(p.token(1), "b");
}

#[test]
fn strip_prefix_and_concat() {
    let a = ptr(&["a", "b"]);
    let b = ptr(&["c"]);
    let ab = a.concat(&b);
    assert_eq!(ab, ptr(&["a", "b", "c"]));
    assert_eq!(ab.strip_prefix(&a), Some(b));
    assert_eq!(ab.strip_prefix(&ptr(&["a", "c"])), None);
    assert_eq!(ab.strip_prefix(&Pointer::root()), Some(ab.duplicate()));
}

#[test]
fn intersection_is_common_prefix() {
    let a = ptr(&["a", "b", "c"]);
    let b = ptr(&["a", "b", "d", "e"]);
    assert_eq!(a.intersection(&b), ptr(&["a", "b"]));
    assert_eq!(b.intersection(&a), ptr(&["a", "b"]));
    assert_eq!(a.intersection(&ptr(&["x"])), Pointer::root());
    assert_eq!(a.intersection(&ptr(&["a"])), ptr(&["a"]));
}

#[test]
fn encoded_form_escapes_tokens() {
    assert_eq!(Pointer::root().to_encoded(), "");
    assert_eq!(ptr(&["a", "b"]).to_encoded(), "/a/b");
    assert_eq!(ptr(&["", "a~b", "c/d"]).to_encoded(), "//a~0b/c~1d");
    assert_eq!(Pointer::from_token("x").to_encoded(), "/x");
}

#[test]
fn equality_of_tokens() {
    assert!(ptr(&["a"]).equals(&ptr(&["a"])));
    assert!(!ptr(&["a"]).equals(&ptr(&["a", "b"])));
    assert!(!ptr(&["a"]).equals(&ptr(&["b"])));
}

#[test]
fn pattern_round_trips_through_string_form() {
    assert_eq!(ref_to_pointer("/x/y").0.to_encoded(), "/x/y");
    assert_eq!(ref_to_pointer("a/b").0.to_encoded(), "/a/b");
    assert_eq!(ref_to_pointer("a//b/").0.to_encoded(), "/a//b/");
    assert_eq!(ref_to_pointer("a/~b").0.to_encoded(), "/a/~0b");
}
