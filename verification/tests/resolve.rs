use leptos_i18n::error::Error;
use leptos_i18n::key::{Key, KeyPath};
use leptos_i18n::resolve::{resolve_foreign_keys, TableEntry, TableValue};
use leptos_i18n::value::{ForeignKey, Literal, ParsedValue, VarBound};

fn key(s: &str) -> Key {
    Key::new(s).unwrap()
}

fn path(s: &str) -> KeyPath {
    KeyPath::new_from_path(None, vec![key(s)])
}

fn text(s: &str) -> ParsedValue {
    ParsedValue::Literal(Literal::String(s.to_string(), usize::MAX))
}

fn fk(target: &str, args: Vec<(String, ParsedValue)>) -> ParsedValue {
    ParsedValue::ForeignKey(ForeignKey::NotSet(path(target), args))
}

fn entry(locale: &str, k: &str, v: ParsedValue) -> TableEntry {
    TableEntry { locale: key(locale), path: path(k), value: TableValue::Value(v) }
}

fn resolved(v: ParsedValue) -> ParsedValue {
    ParsedValue::ForeignKey(ForeignKey::Resolved(Box::new(v)))
}

fn value_at(t: &[TableEntry], locale: &str, k: &str) -> ParsedValue {
    for e in t {
        if e.locale == key(locale) && e.path == path(k) {
            if let TableValue::Value(v) = &e.value {
                return v.copy();
            }
        }
    }
    panic!("no entry")
}

#[test]
fn resolve_links_to_target_value() {
    let t = vec![entry("en", "a", text("hello")), entry("en", "b", fk("a", vec![]))];
    let out = resolve_foreign_keys(&t, &key("en")).unwrap();
    assert_eq!(value_at(&out, "en", "b"), resolved(text("hello")));
    assert_eq!(value_at(&out, "en", "a"), text("hello"));
}

#[test]
fn resolve_fills_arguments() {
    let var = ParsedValue::Variable { key: key("var_name"), formatter: VarBound::Unformatted };
    let t = vec![
        entry("en", "g", ParsedValue::Bloc(vec![text("hi "), var])),
        entry("en", "h", fk("g", vec![("var_name".to_string(), text("Ann"))])),
    ];
    let out = resolve_foreign_keys(&t, &key("en")).unwrap();
    assert_eq!(value_at(&out, "en", "h"), resolved(ParsedValue::Bloc(vec![text("hi "), text("Ann")])));
}

#[test]
fn resolve_default_target_uses_default_locale() {
    let t = vec![
        entry("en", "a", text("hello")),
        entry("fr", "a", ParsedValue::Default),
        entry("fr", "b", fk("a", vec![])),
    ];
    let out = resolve_foreign_keys(&t, &key("en")).unwrap();
    assert_eq!(value_at(&out, "fr", "b"), resolved(text("hello")));
}

#[test]
fn resolve_missing_target_is_error() {
    let t = vec![entry("en", "b", fk("nope", vec![]))];
    let err = resolve_foreign_keys(&t, &key("en")).unwrap_err();
    assert_eq!(err, Error::MissingForeignKey { foreign_key: path("nope"), locale: key("en"), key_path: path("b") });
}

#[test]
fn resolve_cycle_is_error() {
    let t = vec![entry("en", "x", fk("y", vec![])), entry("en", "y", fk("x", vec![]))];
    let err = resolve_foreign_keys(&t, &key("en")).unwrap_err();
    assert_eq!(err, Error::RecursiveForeignKey { locale: key("en"), key_path: path("x") });
    let t = vec![entry("en", "z", fk("z", vec![]))];
    let err = resolve_foreign_keys(&t, &key("en")).unwrap_err();
    assert_eq!(err, Error::RecursiveForeignKey { locale: key("en"), key_path: path("z") });
}

#[test]
fn resolve_explicit_default_in_default_is_error() {
    let t = vec![entry("en", "c", ParsedValue::Default), entry("en", "d", fk("c", vec![]))];
    let err = resolve_foreign_keys(&t, &key("en")).unwrap_err();
    assert_eq!(err, Error::ExplicitDefaultInDefault(path("d")));
}

#[test]
fn resolve_to_subkeys_is_error() {
    let t = vec![
        TableEntry { locale: key("en"), path: path("s"), value: TableValue::Subkeys },
        entry("en", "e", fk("s", vec![])),
    ];
    let err = resolve_foreign_keys(&t, &key("en")).unwrap_err();
    assert_eq!(err, Error::InvalidForeignKey { foreign_key: path("s"), locale: key("en"), key_path: path("e") });
}

#[test]
fn resolve_chains_through_targets() {
    let t = vec![
        entry("en", "a", text("deep")),
        entry("en", "b", fk("a", vec![])),
        entry("en", "c", fk("b", vec![])),
    ];
    let out = resolve_foreign_keys(&t, &key("en")).unwrap();
    assert_eq!(value_at(&out, "en", "c"), resolved(resolved(text("deep"))));
}
