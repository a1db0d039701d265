use leptos_i18n::error::{Error, Warning};
use leptos_i18n::key::{Key, KeyPath};
use leptos_i18n::merge::{merge_locales_plurals, merge_values_plurals_checked, MergedEntry, MergedValue, RawEntry};
use leptos_i18n::plurals::{PluralForm, PluralRuleType};
use leptos_i18n::value::{Literal, ParsedValue};

fn key(s: &str) -> Key {
    Key::new(s).unwrap()
}

fn lit(s: &str) -> ParsedValue {
    ParsedValue::Literal(Literal::String(s.to_string(), usize::MAX))
}

fn raw(s: &str) -> RawEntry {
    RawEntry::Value(lit(s))
}

#[test]
fn plural_keys_are_gathered() {
    let values = vec![
        (key("items_one"), raw("one item")),
        (key("items_other"), raw("many items")),
        (key("title"), raw("x")),
    ];
    let mut diag: Vec<Error> = Vec::new();
    let mut warnings: Vec<Warning> = Vec::new();
    let out = merge_values_plurals_checked(values, &key("en"), &KeyPath::new(None), true, &mut diag, &mut warnings).unwrap();
    assert!(diag.is_empty());
    assert_eq!(out.len(), 2);
    assert_eq!(out[0].0, key("items"));
    match &out[0].1 {
        MergedEntry::Value(MergedValue::Plurals(p)) => {
            assert_eq!(p.rule_type, PluralRuleType::Cardinal);
            assert_eq!(p.count_key, key("var_count"));
            assert_eq!(p.forms.get_form(PluralForm::One), Some(&lit("one item")));
            assert_eq!(p.forms.get_form(PluralForm::Other), Some(&lit("many items")));
            assert_eq!(p.forms.get_form(PluralForm::Few), None);
        },
        other => panic!("unexpected {:?}", other),
    }
    assert_eq!(out[1], (key("title"), MergedEntry::Value(MergedValue::RawValue(lit("x")))));
}

#[test]
fn lone_or_otherless_plural_keys_stay_plain() {
    let values = vec![
        (key("a_one"), raw("1")),
        (key("b_few"), raw("f")),
        (key("b_many"), raw("m")),
    ];
    let mut diag: Vec<Error> = Vec::new();
    let mut warnings: Vec<Warning> = Vec::new();
    let out = merge_values_plurals_checked(values, &key("en"), &KeyPath::new(None), true, &mut diag, &mut warnings).unwrap();
    assert!(diag.is_empty());
    let names: Vec<Key> = out.iter().map(|(k, _)| k.clone()).collect();
    assert_eq!(names, vec![key("a_one"), key("b_few"), key("b_many")]);
}

#[test]
fn plural_errors_are_reported() {
    let values = vec![
        (key("items"), raw("plain")),
        (key("items_one"), raw("one")),
        (key("items_other"), raw("other")),
        (key("place_ordinal_few"), raw("few")),
        (key("place_other"), raw("other")),
    ];
    let mut diag: Vec<Error> = Vec::new();
    let mut warnings: Vec<Warning> = Vec::new();
    let out = merge_values_plurals_checked(values, &key("en"), &KeyPath::new(None), false, &mut diag, &mut warnings).unwrap();
    assert_eq!(out.len(), 2);
    let kinds: Vec<&'static str> = diag
        .iter()
        .map(|e| match e {
            Error::DisabledPlurals { .. } => "disabled",
            Error::PluralsAtNormalKey { .. } => "normal",
            Error::ConflictingPluralRuleType { .. } => "conflict",
            _ => "other",
        })
        .collect();
    assert_eq!(kinds, vec!["disabled", "normal", "conflict"]);
    assert!(warnings.is_empty());
}

#[test]
fn forms_never_selected_are_warned_about() {
    let values = vec![
        (key("items_zero"), raw("none")),
        (key("items_one"), raw("one")),
        (key("items_many"), raw("lots")),
        (key("items_other"), raw("other")),
    ];
    let mut diag: Vec<Error> = Vec::new();
    let mut warnings: Vec<Warning> = Vec::new();
    let out = merge_values_plurals_checked(values, &key("en"), &KeyPath::new(None), true, &mut diag, &mut warnings).unwrap();
    assert!(diag.is_empty());
    assert_eq!(out.len(), 1);
    let forms: Vec<PluralForm> = warnings
        .iter()
        .map(|w| match w {
            Warning::UnusedForm { form, rule_type, key_path, .. } => {
                assert_eq!(*rule_type, PluralRuleType::Cardinal);
                assert_eq!(key_path.path, vec![key("items")]);
                *form
            },
            other => panic!("unexpected {:?}", other),
        })
        .collect();
    assert_eq!(forms, vec![PluralForm::Zero, PluralForm::Many]);
}

#[test]
fn nested_levels_are_gathered() {
    let values = vec![(key("sub"), RawEntry::Subkeys(vec![(key("n_one"), raw("1")), (key("n_other"), raw("2"))]))];
    let mut diag: Vec<Error> = Vec::new();
    let mut warnings: Vec<Warning> = Vec::new();
    let out = merge_values_plurals_checked(values, &key("en"), &KeyPath::new(None), true, &mut diag, &mut warnings).unwrap();
    match &out[0].1 {
        MergedEntry::Subkeys(inner) => {
            assert_eq!(inner.len(), 1);
            assert_eq!(inner[0].0, key("n"));
        },
        other => panic!("unexpected {:?}", other),
    }
}

#[test]
fn plural_key_without_value_is_refused() {
    let values = vec![(key("x_one"), RawEntry::Defaulted), (key("x_other"), raw("o"))];
    let mut diag: Vec<Error> = Vec::new();
    let mut warnings: Vec<Warning> = Vec::new();
    assert!(merge_values_plurals_checked(values, &key("en"), &KeyPath::new(None), true, &mut diag, &mut warnings).is_none());
}

#[test]
fn plurals_gathered_in_every_locale() {
    let locales = vec![
        (key("en"), vec![(key("items_one"), raw("one")), (key("items_other"), raw("many"))]),
        (key("fr"), vec![(key("items_other"), raw("plusieurs")), (key("title"), raw("t"))]),
        (key("de"), vec![(key("items_one"), raw("eins")), (key("items_other"), raw("viele"))]),
    ];
    let mut diag: Vec<Error> = Vec::new();
    let mut warnings: Vec<Warning> = Vec::new();
    let out = merge_locales_plurals(locales, Some(key("common")), true, &mut diag, &mut warnings);
    assert!(diag.is_empty());
    assert_eq!(out.len(), 3);
    assert_eq!(out[0].0, key("en"));
    assert_eq!(out[0].1.len(), 1);
    assert_eq!(out[0].1[0].0, key("items"));
    assert_eq!(out[1].0, key("fr"));
    let names: Vec<Key> = out[1].1.iter().map(|(k, _)| k.clone()).collect();
    // a lone plural key stays a plain key
    assert_eq!(names, vec![key("items_other"), key("title")]);
    assert_eq!(out[2].0, key("de"));
    assert_eq!(out[2].1[0].0, key("items"));
}
