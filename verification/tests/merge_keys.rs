use leptos_i18n::error::{Error, Warning};
use leptos_i18n::indexer::StringIndexer;
use leptos_i18n::key::{Key, KeyPath};
use leptos_i18n::builders::VarInfos;
use leptos_i18n::merge_keys::{make_keys, merge_and_index_keys, merge_locales, LocaleEntry, Values};
use leptos_i18n::value::VarBound;
use leptos_i18n::plural_rules::check_forms;
use leptos_i18n::plurals::{PluralForm, PluralRuleType};
use leptos_i18n::value::{Literal, ParsedValue, Plurals};

fn key(s: &str) -> Key {
    Key::new(s).unwrap()
}

fn kp(s: &str) -> KeyPath {
    KeyPath::new_from_path(None, vec![key(s)])
}

fn text(s: &str) -> ParsedValue {
    ParsedValue::Literal(Literal::String(s.to_string(), usize::MAX))
}

fn value(k: &str, s: &str) -> (Key, LocaleEntry) {
    (key(k), LocaleEntry::Value(text(s)))
}

fn find<'a>(keys: &'a [(Key, Values)], k: &str) -> &'a Values {
    &keys.iter().find(|(kk, _)| *kk == key(k)).unwrap().1
}

#[test]
fn merge_keys_default_then_other_locale() {
    let mut keys: Vec<(Key, Values)> = Vec::new();
    let mut warnings = Vec::new();
    let mut errors = Vec::new();
    let ext: Vec<(Key, Key)> = Vec::new();
    let mut en_strings = StringIndexer::new();
    let en = vec![value("a", "hello"), value("b", "bye"), (key("c"), LocaleEntry::Defaulted)];
    merge_and_index_keys(
        &en,
        &key("en"),
        &key("en"),
        &mut keys,
        &KeyPath::new(None),
        &ext,
        &mut en_strings,
        &mut warnings,
        &mut errors,
    );
    assert!(warnings.is_empty());
    assert_eq!(errors, vec![Error::ExplicitDefaultInDefault(kp("c"))]);
    assert_eq!(keys.len(), 2);
    assert_eq!(find(&keys, "a").values, vec![(key("en"), ParsedValue::Literal(Literal::String("hello".into(), 0)))]);
    assert_eq!(en_strings.get_strings(), vec!["hello".to_string(), "bye".to_string()]);

    let mut fr_strings = StringIndexer::new();
    let fr = vec![value("a", "bonjour"), (key("d"), LocaleEntry::Defaulted), value("e", "en plus")];
    merge_and_index_keys(
        &fr,
        &key("fr"),
        &key("en"),
        &mut keys,
        &KeyPath::new(None),
        &ext,
        &mut fr_strings,
        &mut warnings,
        &mut errors,
    );
    assert_eq!(
        warnings,
        vec![
            Warning::MissingKey { locale: key("fr"), key_path: kp("b") },
            Warning::SurplusKey { locale: key("fr"), key_path: kp("d") },
        ]
    );
    assert_eq!(find(&keys, "b").defaults.mapping, vec![(key("fr"), key("en"))]);
    assert_eq!(find(&keys, "a").values.len(), 2);
    assert_eq!(find(&keys, "e").values, vec![(key("fr"), ParsedValue::Literal(Literal::String("en plus".into(), 1)))]);
    assert_eq!(keys.len(), 3);
}

#[test]
fn merge_keys_missing_key_follows_declared_inheritance() {
    let mut keys: Vec<(Key, Values)> = Vec::new();
    let mut warnings = Vec::new();
    let mut errors = Vec::new();
    let ext = vec![(key("fr_CA"), key("fr"))];
    let en = vec![value("a", "hello")];
    let root = KeyPath::new(None);
    merge_and_index_keys(&en, &key("en"), &key("en"), &mut keys, &root, &ext, &mut StringIndexer::new(), &mut warnings, &mut errors);
    let ca = vec![(key("a"), LocaleEntry::Defaulted)];
    merge_and_index_keys(&ca, &key("fr_CA"), &key("en"), &mut keys, &root, &ext, &mut StringIndexer::new(), &mut warnings, &mut errors);
    assert!(warnings.is_empty());
    assert!(errors.is_empty());
    assert_eq!(find(&keys, "a").defaults.mapping, vec![(key("fr_CA"), key("fr"))]);
}

#[test]
fn check_forms_warns_about_unused_forms() {
    let p = Plurals {
        rule_type: PluralRuleType::Cardinal,
        count_key: key("var_count"),
        other: Box::new(text("many")),
        forms: vec![(PluralForm::Few, text("few")), (PluralForm::One, text("one")), (PluralForm::Zero, text("zero"))],
    };
    let mut warnings = Vec::new();
    check_forms(&p, &key("en"), &kp("apples"), &mut warnings).unwrap();
    assert_eq!(
        warnings,
        vec![
            Warning::UnusedForm { locale: key("en"), key_path: kp("apples"), form: PluralForm::Zero, rule_type: PluralRuleType::Cardinal },
            Warning::UnusedForm { locale: key("en"), key_path: kp("apples"), form: PluralForm::Few, rule_type: PluralRuleType::Cardinal },
        ]
    );
    assert_eq!(
        warnings[0].message(),
        "At key \"apples\", locale \"en\" does not use cardinal plural form \"_zero\", it is still kept but is useless."
    );
    let mut none = Vec::new();
    assert!(check_forms(&p, &key("abcdefghijklm"), &kp("apples"), &mut none).is_err());
    assert!(none.is_empty());
}

#[test]
fn key_warning_messages() {
    assert_eq!(
        Warning::MissingKey { locale: key("fr"), key_path: kp("b") }.message(),
        "Missing key \"b\" in locale \"fr\""
    );
    assert_eq!(
        Warning::SurplusKey { locale: key("fr"), key_path: kp("d") }.message(),
        "Key \"d\" is present in locale \"fr\" but not in default locale, it is ignored"
    );
}

#[test]
fn merge_locales_default_first() {
    let locales = vec![
        (key("fr"), vec![value("a", "bonjour")]),
        (key("en"), vec![value("a", "hello"), value("b", "bye")]),
    ];
    let mut warnings = Vec::new();
    let mut errors = Vec::new();
    let merged = merge_locales(&locales, &key("en"), None, &Vec::new(), &mut warnings, &mut errors);
    assert!(errors.is_empty());
    assert_eq!(warnings, vec![Warning::MissingKey { locale: key("fr"), key_path: kp("b") }]);
    assert_eq!(
        merged.locales,
        vec![(key("en"), vec!["hello".to_string(), "bye".to_string()]), (key("fr"), vec!["bonjour".to_string()])]
    );
    assert_eq!(merged.keys.len(), 2);
    assert_eq!(find(&merged.keys, "b").defaults.mapping, vec![(key("fr"), key("en"))]);
}

#[test]
fn make_keys_gathers_every_locale() {
    let var = |n: &str| ParsedValue::Variable { key: key(n), formatter: VarBound::Unformatted };
    let locales = vec![
        (key("en"), vec![(key("a"), LocaleEntry::Value(ParsedValue::Bloc(vec![text("hi "), var("var_name")])))]),
        (key("fr"), vec![(key("a"), LocaleEntry::Value(var("var_age")))]),
    ];
    let merged = merge_locales(&locales, &key("en"), None, &Vec::new(), &mut Vec::new(), &mut Vec::new());
    let k = make_keys(find(&merged.keys, "a"));
    assert_eq!(
        k.vars,
        vec![
            (key("var_age"), VarInfos { bounds: vec![VarBound::Unformatted], plural: false }),
            (key("var_name"), VarInfos { bounds: vec![VarBound::Unformatted], plural: false }),
        ]
    );
    assert!(k.components.is_empty());
}

#[test]
fn merge_keys_nested_levels_and_mismatches() {
    let mut keys: Vec<(Key, Values)> = Vec::new();
    let mut warnings = Vec::new();
    let mut errors = Vec::new();
    let ext: Vec<(Key, Key)> = Vec::new();
    let en = vec![
        (key("n"), LocaleEntry::Subkeys(vec![value("x", "one"), value("y", "two")])),
        value("p", "plain"),
    ];
    merge_and_index_keys(&en, &key("en"), &key("en"), &mut keys, &KeyPath::new(None), &ext, &mut StringIndexer::new(), &mut warnings, &mut errors);
    assert!(warnings.is_empty());
    assert!(errors.is_empty());
    let n = find(&keys, "n").subkeys.as_ref().unwrap();
    assert_eq!(n.len(), 2);
    assert!(find(&keys, "p").subkeys.is_none());

    // fr: nested level merged key by key; a plain value where the key has
    // nested keys, and nested keys where it has a value, are mismatches
    let fr = vec![
        (key("n"), LocaleEntry::Subkeys(vec![value("x", "un")])),
        (key("p"), LocaleEntry::Subkeys(vec![value("q", "nested")])),
    ];
    let mut fr_strings = StringIndexer::new();
    merge_and_index_keys(&fr, &key("fr"), &key("en"), &mut keys, &KeyPath::new(None), &ext, &mut fr_strings, &mut warnings, &mut errors);
    assert_eq!(errors, vec![Error::SubKeyMissmatch { locale: key("fr"), key_path: kp("p") }]);
    let messages: Vec<String> = warnings.iter().map(|w| w.message()).collect();
    assert_eq!(messages, vec!["Missing key \"n.y\" in locale \"fr\"".to_string()]);
    let n = find(&keys, "n").subkeys.as_ref().unwrap();
    assert_eq!(find(n, "x").values.len(), 2);
    assert_eq!(find(n, "y").defaults.mapping, vec![(key("fr"), key("en"))]);
    assert_eq!(find(&keys, "p").defaults.mapping, vec![(key("fr"), key("en"))]);
    assert_eq!(fr_strings.get_strings(), vec!["un".to_string()]);

    // de: a plain value for the nested key gives every nested key the fallback
    let de = vec![value("n", "flach"), value("p", "schlicht")];
    let mut errors = Vec::new();
    merge_and_index_keys(&de, &key("de"), &key("en"), &mut keys, &KeyPath::new(None), &ext, &mut StringIndexer::new(), &mut warnings, &mut errors);
    assert_eq!(errors, vec![Error::SubKeyMissmatch { locale: key("de"), key_path: kp("n") }]);
    let n = find(&keys, "n").subkeys.as_ref().unwrap();
    assert_eq!(find(n, "x").defaults.mapping, vec![(key("de"), key("en"))]);
    assert_eq!(find(n, "y").defaults.mapping, vec![(key("de"), key("en")), (key("fr"), key("en"))]);
}
