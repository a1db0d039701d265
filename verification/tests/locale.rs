use leptos_i18n::error::{Error, Warning};
use leptos_i18n::key::Key;
use leptos_i18n::locale::{
    check_locales, check_locales_inner, locales_to_icu, BuildersKeys, Locale, LocalesOrNamespaces, Namespace,
};
use leptos_i18n::value::{ForeignKey, Literal, ParsedValue};

fn key(s: &str) -> Key {
    Key::new(s).unwrap()
}

fn text(s: &str) -> ParsedValue {
    ParsedValue::Literal(Literal::String(s.to_string(), usize::MAX))
}

fn locale(name: &str, entries: Vec<(&str, ParsedValue)>) -> Locale {
    Locale {
        top_locale_name: key(name),
        name: key(name),
        keys: entries.into_iter().map(|(k, v)| (key(k), v)).collect(),
        strings: vec![],
        top_locale_string_count: 0,
    }
}

fn names<T>(v: &[(Key, T)]) -> Vec<String> {
    v.iter().map(|(k, _)| k.name.clone()).collect()
}

fn messages(w: &[Warning]) -> Vec<String> {
    w.iter().map(|w| w.message()).collect()
}

fn en_fr() -> Vec<Locale> {
    vec![
        locale("en", vec![("a", text("hello")), ("b", text("world"))]),
        locale("fr", vec![("a", text("bonjour")), ("c", text("en trop"))]),
    ]
}

#[test]
fn locales_to_icu_sorts_by_name() {
    let ls = vec![locale("fr", vec![]), locale("en-US", vec![]), locale("en", vec![])];
    let icu = locales_to_icu(&ls).unwrap();
    assert_eq!(names(&icu), vec!["en", "en-US", "fr"]);
    assert_eq!(icu[1].1.region, Some("US".to_string()));
}

#[test]
fn locales_to_icu_rejects_invalid_locale() {
    let ls = vec![locale("en", vec![]), locale("a", vec![])];
    assert!(matches!(locales_to_icu(&ls), Err(Error::InvalidLocale { locale, .. }) if locale == "a"));
}

#[test]
fn check_locales_inner_merges_and_warns() {
    let mut ls = en_fr();
    let mut warnings = vec![];
    let keys = check_locales_inner(&mut ls, None, &vec![], false, &mut warnings).unwrap();
    assert_eq!(names(&keys), vec!["a", "b"]);
    assert_eq!(ls[0].strings, vec!["hello".to_string(), "world".to_string()]);
    assert_eq!(ls[0].top_locale_string_count, 2);
    assert_eq!(ls[1].strings, vec!["bonjour".to_string()]);
    assert_eq!(ls[1].top_locale_string_count, 1);
    assert_eq!(names(&ls[1].keys), vec!["a", "b", "c"]);
    assert_eq!(ls[1].keys[1].1, ParsedValue::Default);
    assert_eq!(
        messages(&warnings),
        vec![
            "Missing key \"b\" in locale \"fr\"".to_string(),
            "Key \"c\" is present in locale \"fr\" but not in default locale, it is ignored".to_string(),
        ]
    );
}

#[test]
fn check_locales_inner_suppressed_warnings() {
    let mut ls = en_fr();
    let mut warnings = vec![];
    let keys = check_locales_inner(&mut ls, None, &vec![], true, &mut warnings).unwrap();
    assert_eq!(names(&keys), vec!["a", "b"]);
    assert!(warnings.is_empty());
    assert_eq!(ls[1].keys[1].1, ParsedValue::Default);
}

#[test]
fn check_locales_inner_explicit_inheritance_is_silent() {
    let mut ls = vec![
        locale("en", vec![("a", text("hello")), ("b", text("world"))]),
        locale("fr", vec![("a", text("bonjour")), ("b", text("monde"))]),
        locale("fr-CA", vec![("a", text("allo"))]),
    ];
    let mut warnings = vec![];
    let extensions = vec![(key("fr-CA"), key("fr"))];
    check_locales_inner(&mut ls, None, &extensions, false, &mut warnings).unwrap();
    assert!(warnings.is_empty());
    assert_eq!(names(&ls[2].keys), vec!["a", "b"]);
}

#[test]
fn check_locales_inner_base_locale_fallback_is_silent() {
    let mut ls = vec![
        locale("en", vec![("a", text("hello")), ("b", text("world"))]),
        locale("fr", vec![("a", text("bonjour")), ("b", text("monde"))]),
        locale("fr-CA", vec![("a", text("allo"))]),
    ];
    let mut warnings = vec![];
    check_locales_inner(&mut ls, None, &vec![], false, &mut warnings).unwrap();
    assert!(warnings.is_empty());
}

#[test]
fn check_locales_inner_explicit_default_in_default_locale() {
    let mut ls = vec![locale("en", vec![("a", ParsedValue::Default)]), locale("fr", vec![])];
    let mut warnings = vec![];
    let err = check_locales_inner(&mut ls, None, &vec![], false, &mut warnings).unwrap_err();
    assert_eq!(err.message(), "Explicit defaults (null) are not allowed in default locale, at key \"a\"");
}

#[test]
fn check_locales_inner_invalid_locale() {
    let mut ls = vec![locale("en", vec![("a", text("hello"))]), locale("a", vec![])];
    let mut warnings = vec![];
    let err = check_locales_inner(&mut ls, None, &vec![], false, &mut warnings).unwrap_err();
    assert!(matches!(err, Error::InvalidLocale { locale, .. } if locale == "a"));
}

#[test]
fn check_locales_by_namespace() {
    let nss = vec![
        Namespace { key: key("common"), locales: en_fr() },
        Namespace { key: key("admin"), locales: vec![locale("en", vec![("x", text("x"))]), locale("fr", vec![])] },
    ];
    let mut warnings = vec![];
    match check_locales(LocalesOrNamespaces::NameSpaces(nss), &vec![], false, &mut warnings).unwrap() {
        BuildersKeys::NameSpaces { namespaces, keys } => {
            assert_eq!(names(&keys), vec!["admin", "common"]);
            assert_eq!(names(&keys[0].1), vec!["x"]);
            assert_eq!(names(&keys[1].1), vec!["a", "b"]);
            assert_eq!(namespaces[0].key.name, "common");
            assert_eq!(
                messages(&warnings),
                vec![
                    "Missing key \"common::b\" in locale \"fr\"".to_string(),
                    "Key \"common::c\" is present in locale \"fr\" but not in default locale, it is ignored"
                        .to_string(),
                    "Missing key \"admin::x\" in locale \"fr\"".to_string(),
                ]
            );
        },
        BuildersKeys::Locales { .. } => panic!("expected namespaces"),
    }
}

#[test]
fn check_locales_without_namespaces() {
    let mut warnings = vec![];
    match check_locales(LocalesOrNamespaces::Locales(en_fr()), &vec![], true, &mut warnings).unwrap() {
        BuildersKeys::Locales { locales, keys } => {
            assert_eq!(names(&keys), vec!["a", "b"]);
            assert_eq!(locales.len(), 2);
        },
        BuildersKeys::NameSpaces { .. } => panic!("expected locales"),
    }
}

#[test]
fn update_top_locale_name_keeps_values() {
    let mut l = locale("en", vec![("a", text("hello"))]);
    l.update_top_locale_name(&key("fr"));
    assert_eq!(l.top_locale_name.name, "fr");
    assert_eq!(l.name.name, "en");
    assert_eq!(names(&l.keys), vec!["a"]);
}

#[test]
fn resolved_foreign_key_inner_value() {
    use_resolved(ForeignKey::Resolved(Box::new(text("x"))));
}

fn use_resolved(fk: ForeignKey) {
    assert_eq!(fk.as_inner(), &text("x"));
    assert_eq!(fk.into_inner(), text("x"));
}
