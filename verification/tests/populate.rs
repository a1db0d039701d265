use leptos_i18n::error::Error;
use leptos_i18n::indexer::StringIndexer;
use leptos_i18n::key::{Key, KeyPath};
use leptos_i18n::plurals::{PluralForm, PluralRuleType};
use leptos_i18n::populate::find_variable;
use leptos_i18n::value::{Literal, ParsedValue, Plurals, VarBound};

fn key(s: &str) -> Key {
    Key::new(s).unwrap()
}

fn text(s: &str) -> ParsedValue {
    ParsedValue::Literal(Literal::String(s.to_string(), usize::MAX))
}

fn var(s: &str) -> ParsedValue {
    ParsedValue::Variable { key: key(s), formatter: VarBound::Unformatted }
}

fn apples() -> ParsedValue {
    ParsedValue::Plurals(Plurals {
        rule_type: PluralRuleType::Cardinal,
        count_key: key("var_count"),
        other: Box::new(text("many apples")),
        forms: vec![(PluralForm::One, text("one apple")), (PluralForm::Zero, text("no apple"))],
    })
}

fn call(v: &ParsedValue, args: Vec<(String, ParsedValue)>, locale: &str) -> Result<ParsedValue, Error> {
    let fk = KeyPath::new_from_path(None, vec![key("apples")]);
    let kp = KeyPath::new_from_path(None, vec![key("uses")]);
    v.populate(&args, &fk, &key(locale), &kp)
}

#[test]
fn populate_variable_takes_argument() {
    let v = ParsedValue::Bloc(vec![text("hi "), var("var_name"), text("!")]);
    let out = call(&v, vec![("var_name".to_string(), text("Ann"))], "en").unwrap();
    assert_eq!(out, ParsedValue::Bloc(vec![text("hi "), text("Ann"), text("!")]));
}

#[test]
fn populate_without_argument_keeps_variable() {
    let v = var("var_name");
    let out = call(&v, vec![("var_other".to_string(), text("x"))], "en").unwrap();
    assert_eq!(out, var("var_name"));
}

#[test]
fn populate_count_one_selects_form_en() {
    let out = call(&apples(), vec![("var_count".to_string(), ParsedValue::Literal(Literal::Unsigned(1)))], "en")
        .unwrap();
    assert_eq!(out, text("one apple"));
}

#[test]
fn populate_count_many_selects_other_en() {
    let out = call(&apples(), vec![("var_count".to_string(), ParsedValue::Literal(Literal::Unsigned(5)))], "en")
        .unwrap();
    assert_eq!(out, text("many apples"));
}

#[test]
fn populate_negative_count_uses_magnitude() {
    let out = call(&apples(), vec![("var_count".to_string(), ParsedValue::Literal(Literal::Signed(-1)))], "en")
        .unwrap();
    assert_eq!(out, text("one apple"));
}

#[test]
fn populate_decimal_count() {
    let out = call(
        &apples(),
        vec![("var_count".to_string(), ParsedValue::Literal(Literal::Float("1.5".to_string())))],
        "en",
    )
    .unwrap();
    assert_eq!(out, text("many apples"));
}

#[test]
fn populate_count_variable_renames_count_key() {
    let out = call(&apples(), vec![("var_count".to_string(), var("var_n"))], "en").unwrap();
    match out {
        ParsedValue::Plurals(p) => {
            assert_eq!(p.count_key, key("var_n"));
            assert_eq!(*p.other, text("many apples"));
            assert_eq!(p.forms.len(), 2);
        }
        _ => panic!("expected plurals"),
    }
}

#[test]
fn populate_count_bloc_with_one_variable() {
    let count = ParsedValue::Bloc(vec![text("  "), var("var_n"), text(" ")]);
    let out = call(&apples(), vec![("var_count".to_string(), count)], "en").unwrap();
    match out {
        ParsedValue::Plurals(p) => assert_eq!(p.count_key, key("var_n")),
        _ => panic!("expected plurals"),
    }
}

#[test]
fn populate_invalid_count_is_error() {
    let count = ParsedValue::Literal(Literal::Bool(true));
    let err = call(&apples(), vec![("var_count".to_string(), count)], "en").unwrap_err();
    assert!(matches!(err, Error::InvalidCountArg { .. }));
    let bloc = ParsedValue::Bloc(vec![text("x"), var("var_n")]);
    let err = call(&apples(), vec![("var_count".to_string(), bloc)], "en").unwrap_err();
    assert!(matches!(err, Error::InvalidCountArg { .. }));
}

#[test]
fn populate_bad_locale_is_error() {
    let count = ParsedValue::Literal(Literal::Unsigned(1));
    let err = call(&apples(), vec![("var_count".to_string(), count)], "abcdefghijklm").unwrap_err();
    assert!(matches!(err, Error::InvalidLocale { .. }));
}

#[test]
fn find_variable_between_blanks() {
    assert_eq!(find_variable(&vec![text(" "), var("var_a"), text("")]), Some(key("var_a")));
    assert_eq!(find_variable(&vec![var("var_a"), var("var_b")]), None);
    assert_eq!(find_variable(&vec![text("  ")]), None);
}

#[test]
fn index_strings_places_each_text_once() {
    let mut strings = StringIndexer::new();
    strings.push_str("b");
    let mut v = ParsedValue::Bloc(vec![
        text("a"),
        ParsedValue::Component { key: key("b"), inner: Some(Box::new(text("b"))), attributes: vec![] },
        var("var_x"),
        text("a"),
        apples(),
    ]);
    v.index_strings(&mut strings);
    let at = |s: &str, i: usize| ParsedValue::Literal(Literal::String(s.to_string(), i));
    let expected = ParsedValue::Bloc(vec![
        at("a", 1),
        ParsedValue::Component { key: key("b"), inner: Some(Box::new(at("b", 0))), attributes: vec![] },
        var("var_x"),
        at("a", 1),
        ParsedValue::Plurals(Plurals {
            rule_type: PluralRuleType::Cardinal,
            count_key: key("var_count"),
            other: Box::new(at("many apples", 4)),
            forms: vec![(PluralForm::One, at("one apple", 2)), (PluralForm::Zero, at("no apple", 3))],
        }),
    ]);
    assert_eq!(v, expected);
    assert_eq!(
        strings.get_strings(),
        vec!["b", "a", "one apple", "no apple", "many apples"].into_iter().map(String::from).collect::<Vec<_>>()
    );
}

#[test]
fn populate_whole_float_count_selects_as_the_number() {
    let out = call(
        &apples(),
        vec![("var_count".to_string(), ParsedValue::Literal(Literal::Float("1.0".to_string())))],
        "en",
    )
    .unwrap();
    assert_eq!(out, text("one apple"));
    let out = call(
        &apples(),
        vec![("var_count".to_string(), ParsedValue::Literal(Literal::Float("1.50".to_string())))],
        "en",
    )
    .unwrap();
    assert_eq!(out, text("many apples"));
}
