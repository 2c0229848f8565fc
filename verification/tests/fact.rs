//! Facts and their keys.

use memory_plant::fact::Fact;

#[test]
fn lowercases_fields() {
    let f = Fact::new("USER", "Works_As", "Engineer", "I work as engineer");
    assert_eq!(f.subject, "user");
    assert_eq!(f.predicate, "works_as");
    assert_eq!(f.obj, "engineer");
}

#[test]
fn source_capped() {
    let long = "x".repeat(300);
    let f = Fact::new("user", "p", "v", &long);
    assert_eq!(f.source.len(), 200);
}

#[test]
fn keys_tell_users_and_facts_apart() {
    let key = |u: &str, s: &str, p: &str| Fact::new(s, p, "v", "").to_key(u);
    assert_ne!(key("a", "user", "likes"), key("b", "user", "likes"));
    assert_ne!(key("a", "user", "likes"), key("a", "bob", "likes"));
    assert_ne!(key("a", "user", "likes"), key("a", "user", "owns"));
    assert_eq!(key("a|user", "b", "p"), key("a", "user", "b|p"));
}

#[test]
fn other_alphabets_are_lowered_too() {
    let f = Fact::new("Жанна", "ЛЮБИТ", "Чай", "");
    assert_eq!((f.subject.as_str(), f.predicate.as_str(), f.obj.as_str()), ("жанна", "любит", "чай"));
}

#[test]
fn to_key_format() {
    let f = Fact::new("user", "works_as", "engineer", "");
    assert_eq!(f.to_key("alice"), "alice|user|works_as");
}
