use leptos_i18n::builders::VarInfos;
use leptos_i18n::defaults::{DefaultTo, DefaultedLocales};
use leptos_i18n::error::Error;
use leptos_i18n::indexer::StringIndexer;
use leptos_i18n::key::{Key, KeyPath};
use leptos_i18n::locale_keys::{InterpolOrLit, LocaleKeys, LocaleValue};
use leptos_i18n::plurals::{PluralForm, PluralRuleType};
use leptos_i18n::value::{Literal, LiteralType, ParsedValue, Plurals, VarBound};

fn key(s: &str) -> Key {
    Key::new(s).unwrap()
}

fn text(s: &str) -> ParsedValue {
    ParsedValue::Literal(Literal::String(s.to_string(), usize::MAX))
}

fn var(s: &str) -> ParsedValue {
    ParsedValue::Variable { key: key(s), formatter: VarBound::Unformatted }
}

fn keys_of(x: &InterpolOrLit) -> &LocaleKeys {
    match x {
        InterpolOrLit::Interpol(k) => k,
        InterpolOrLit::Lit(_) => panic!("expected interpolation keys"),
    }
}

#[test]
fn get_keys_of_literals() {
    assert_eq!(text("hi").get_keys(), InterpolOrLit::Lit(LiteralType::String));
    assert_eq!(ParsedValue::Literal(Literal::Unsigned(3)).get_keys(), InterpolOrLit::Lit(LiteralType::Unsigned));
}

#[test]
fn get_keys_of_interpolation() {
    let v = ParsedValue::Bloc(vec![
        text("a "),
        var("var_name"),
        ParsedValue::Component { key: key("b"), inner: Some(Box::new(var("var_age"))), attributes: vec![] },
        ParsedValue::Component { key: key("br"), inner: None, attributes: vec![] },
        var("var_name"),
    ]);
    let k = v.get_keys();
    let k = keys_of(&k);
    assert_eq!(k.components, vec![(key("b"), ())]);
    assert_eq!(k.components_self_closed, vec![(key("br"), ())]);
    assert_eq!(
        k.variables,
        vec![
            (key("var_age"), VarInfos { bounds: vec![VarBound::Unformatted], plural: false }),
            (key("var_name"), VarInfos { bounds: vec![VarBound::Unformatted], plural: false }),
        ]
    );
}

#[test]
fn get_keys_of_plurals_marks_count() {
    let v = ParsedValue::Plurals(Plurals {
        rule_type: PluralRuleType::Cardinal,
        count_key: key("var_count"),
        other: Box::new(text("many")),
        forms: vec![(PluralForm::One, var("var_count"))],
    });
    let k = v.get_keys();
    assert_eq!(
        keys_of(&k).variables,
        vec![(key("var_count"), VarInfos { bounds: vec![VarBound::Unformatted], plural: true })]
    );
}

fn string_key_value(strings: &mut StringIndexer) -> LocaleValue {
    let mut v = text("hello");
    v.make_locale_value(&key("en"), &KeyPath::new(None), strings).unwrap()
}

#[test]
fn merge_literal_of_other_kind_needs_interpolation() {
    let mut strings = StringIndexer::new();
    let mut lv = string_key_value(&mut strings);
    assert_eq!(lv.value, InterpolOrLit::Lit(LiteralType::String));
    let mut same = text("bonjour");
    same.merge(&mut lv, &key("fr"), &DefaultTo::Implicit(key("en")), &KeyPath::new(None), &mut StringIndexer::new(), false, &mut Vec::new()).unwrap();
    assert_eq!(lv.value, InterpolOrLit::Lit(LiteralType::String));
    let mut other = ParsedValue::Literal(Literal::Bool(true));
    other.merge(&mut lv, &key("de"), &DefaultTo::Implicit(key("en")), &KeyPath::new(None), &mut StringIndexer::new(), false, &mut Vec::new()).unwrap();
    assert_eq!(lv.value, InterpolOrLit::Interpol(LocaleKeys::new()));
}

#[test]
fn merge_adds_other_locale_keys() {
    let mut strings = StringIndexer::new();
    let mut lv = string_key_value(&mut strings);
    let mut v = ParsedValue::Bloc(vec![text("salut "), var("var_name")]);
    let mut fr_strings = StringIndexer::new();
    v.merge(&mut lv, &key("fr"), &DefaultTo::Implicit(key("en")), &KeyPath::new(None), &mut fr_strings, false, &mut Vec::new()).unwrap();
    assert_eq!(
        keys_of(&lv.value).variables,
        vec![(key("var_name"), VarInfos { bounds: vec![VarBound::Unformatted], plural: false })]
    );
    assert_eq!(fr_strings.get_strings(), vec!["salut ".to_string()]);
}

#[test]
fn merge_default_records_fallback() {
    let mut strings = StringIndexer::new();
    let mut lv = string_key_value(&mut strings);
    let mut v = ParsedValue::Default;
    v.merge(&mut lv, &key("fr_CA"), &DefaultTo::Explicit(key("fr")), &KeyPath::new(None), &mut StringIndexer::new(), false, &mut Vec::new()).unwrap();
    assert_eq!(lv.value, InterpolOrLit::Lit(LiteralType::String));
    assert_eq!(lv.defaults.mapping, vec![(key("fr_CA"), key("fr"))]);
    let d: &DefaultedLocales = &lv.defaults;
    assert_eq!(d.default_locale, key("en"));
}

#[test]
fn make_locale_value_rejects_default() {
    let mut v = ParsedValue::Default;
    let err = v.make_locale_value(&key("en"), &KeyPath::new_from_path(None, vec![key("k")]), &mut StringIndexer::new());
    assert_eq!(err.unwrap_err(), Error::ExplicitDefaultInDefault(KeyPath::new_from_path(None, vec![key("k")])));
}

fn nested(entries: Vec<(&str, ParsedValue)>) -> ParsedValue {
    ParsedValue::Subkeys(entries.into_iter().map(|(k, v)| (key(k), v)).collect())
}

fn nested_keys(strings: &mut StringIndexer) -> LocaleValue {
    let mut inner = text("hello");
    let lv = inner.make_locale_value(&key("en"), &KeyPath::new(None), strings).unwrap();
    LocaleValue { value: InterpolOrLit::Lit(LiteralType::String), defaults: DefaultedLocales::new(key("en")), subkeys: Some(vec![(key("a"), lv)]) }
}

#[test]
fn merge_nested_value_into_plain_key_is_a_mismatch() {
    let mut strings = StringIndexer::new();
    let mut lv = string_key_value(&mut strings);
    let mut v = nested(vec![("a", text("bonjour"))]);
    let kp = KeyPath::new_from_path(None, vec![key("k")]);
    let err = v.merge(&mut lv, &key("fr"), &DefaultTo::Implicit(key("en")), &kp, &mut StringIndexer::new(), false, &mut Vec::new());
    assert_eq!(err.unwrap_err(), Error::SubKeyMissmatch { locale: key("fr"), key_path: kp });
}

#[test]
fn merge_plain_value_into_nested_key_is_a_mismatch() {
    let mut strings = StringIndexer::new();
    let mut lv = nested_keys(&mut strings);
    let mut v = text("bonjour");
    let kp = KeyPath::new_from_path(None, vec![key("k")]);
    let err = v.merge(&mut lv, &key("fr"), &DefaultTo::Implicit(key("en")), &kp, &mut StringIndexer::new(), false, &mut Vec::new());
    assert_eq!(err.unwrap_err().message(), "Missmatch value type beetween locale \"fr\" and default at key \"k\": one has subkeys and the other has direct value.");
}

#[test]
fn merge_nested_values_key_by_key() {
    let mut strings = StringIndexer::new();
    let mut lv = nested_keys(&mut strings);
    let mut v = nested(vec![("a", ParsedValue::Bloc(vec![text("salut "), var("var_name")])), ("b", text("en trop"))]);
    let kp = KeyPath::new_from_path(None, vec![key("k")]);
    let mut warnings = Vec::new();
    let mut fr_strings = StringIndexer::new();
    v.merge(&mut lv, &key("fr"), &DefaultTo::Implicit(key("en")), &kp, &mut fr_strings, false, &mut warnings).unwrap();
    let sub = lv.subkeys.as_ref().unwrap();
    assert_eq!(sub.len(), 1);
    assert_eq!(
        keys_of(&sub[0].1.value).variables,
        vec![(key("var_name"), VarInfos { bounds: vec![VarBound::Unformatted], plural: false })]
    );
    assert_eq!(fr_strings.get_strings(), vec!["salut ".to_string()]);
    let messages: Vec<String> = warnings.iter().map(|w| w.message()).collect();
    assert_eq!(messages, vec!["Key \"k.b\" is present in locale \"fr\" but not in default locale, it is ignored".to_string()]);
}

#[test]
fn merge_default_into_nested_key_defaults_every_nested_key() {
    let mut strings = StringIndexer::new();
    let mut lv = nested_keys(&mut strings);
    let mut v = ParsedValue::Default;
    let kp = KeyPath::new_from_path(None, vec![key("k")]);
    let mut warnings = Vec::new();
    v.merge(&mut lv, &key("fr"), &DefaultTo::Implicit(key("en")), &kp, &mut StringIndexer::new(), false, &mut warnings).unwrap();
    assert!(warnings.is_empty());
    let sub = lv.subkeys.as_ref().unwrap();
    assert_eq!(sub[0].1.defaults.mapping, vec![(key("fr"), key("en"))]);
    assert_eq!(v, nested(vec![("a", ParsedValue::Default)]));
}

#[test]
fn get_keys_records_attribute_variables() {
    let v = ParsedValue::Component {
        key: key("b"),
        inner: None,
        attributes: vec![
            leptos_i18n::value::Attribute { key: "class".to_string(), value: Some(leptos_i18n::value::AttributeValue::Variable(key("var_cls"))) },
            leptos_i18n::value::Attribute { key: "id".to_string(), value: None },
        ],
    };
    let k = v.get_keys();
    let k = keys_of(&k);
    assert_eq!(k.variables, vec![(key("var_cls"), VarInfos { bounds: vec![VarBound::AttributeValue], plural: false })]);
    assert_eq!(k.components_self_closed, vec![(key("b"), ())]);
}
