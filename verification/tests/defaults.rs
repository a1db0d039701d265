use leptos_i18n::defaults::{find_base_default, get_locale_fallback, DefaultTo, DefaultedLocales, LocaleId};
use leptos_i18n::key::Key;

fn key(s: &str) -> Key {
    Key::new(s).unwrap()
}

fn get_icu_locales() -> Vec<(Key, LocaleId)> {
    let mut names = vec![
        "en",
        "fr",
        "en-US",
        "fr-FR",
        "fr-FR-u-ca-buddhist",
        "fr-u-ca-buddhist",
        "en-Latn-US-Valencia",
        "en-Latn-US-Valencia-u-ca-buddhist",
        "en-Latn-US-u-ca-buddhist",
        "en-Valencia",
        "en-Latn",
    ];
    names.sort();
    names.into_iter().map(|n| (key(n), LocaleId::parse(n).unwrap())).collect()
}

fn check_fallback(locales: &Vec<(Key, LocaleId)>, val: &str, expected: Option<&str>) {
    let found = find_base_default(locales, &key(val));
    assert_eq!(found, expected.map(key), "fallback of {val}");
}

#[test]
fn test_locale_defaulting() {
    let icu_locales = get_icu_locales();
    check_fallback(&icu_locales, "fr-FR-u-ca-buddhist", Some("fr-FR"));
    check_fallback(&icu_locales, "fr-u-ca-buddhist", Some("fr"));
    check_fallback(&icu_locales, "fr-FR", Some("fr"));
    check_fallback(&icu_locales, "fr", None);
    check_fallback(&icu_locales, "en-Latn-US-Valencia", Some("en-US"));
    check_fallback(&icu_locales, "en-Latn-US-Valencia-u-ca-buddhist", Some("en-US"));
    check_fallback(&icu_locales, "en-Latn-US-u-ca-buddhist", Some("en-US"));
    check_fallback(&icu_locales, "en-Valencia", Some("en"));
    check_fallback(&icu_locales, "en-Latn", Some("en"));
    check_fallback(&icu_locales, "en-US", Some("en"));
    check_fallback(&icu_locales, "en", None);
}

#[test]
fn locale_fallback_order() {
    let icu_locales = get_icu_locales();
    let extensions = vec![(key("en-US"), key("fr"))];
    let default = key("en");
    assert_eq!(
        get_locale_fallback(&extensions, &icu_locales, &default, &key("en-US"), false),
        DefaultTo::Explicit(key("fr"))
    );
    assert_eq!(
        get_locale_fallback(&extensions, &icu_locales, &default, &key("fr-FR"), false),
        DefaultTo::Explicit(key("fr"))
    );
    assert_eq!(
        get_locale_fallback(&extensions, &icu_locales, &default, &key("fr"), false),
        DefaultTo::Implicit(key("en"))
    );
    assert_eq!(
        get_locale_fallback(&extensions, &icu_locales, &default, &key("fr"), true),
        DefaultTo::Explicit(key("en"))
    );
}

#[test]
fn defaulted_locales_follow_and_group() {
    let mut d = DefaultedLocales::new(key("en"));
    let extensions = vec![(key("de"), key("fr")), (key("fr"), key("it"))];
    d.push(key("fr"), &extensions);
    d.push(key("de"), &extensions);
    d.push(key("es"), &extensions);
    // de -> fr -> it, it has no mapping
    assert_eq!(d.default_of(&key("de")), key("it"));
    assert_eq!(d.default_of(&key("es")), key("en"));
    let groups = d.compute();
    assert_eq!(
        groups,
        vec![(key("en"), vec![key("es")]), (key("it"), vec![key("de"), key("fr")])]
    );
}

#[test]
fn defaulted_locales_loop_goes_to_default() {
    let mut d = DefaultedLocales::new(key("en"));
    let extensions = vec![(key("de"), key("fr")), (key("fr"), key("de"))];
    d.push(key("de"), &extensions);
    d.push(key("fr"), &extensions);
    assert_eq!(d.default_of(&key("de")), key("en"));
}

#[test]
fn invalid_locale_is_rejected() {
    assert!(LocaleId::parse("not a locale!").is_err());
}

#[test]
fn compute_partitions_the_mapped_locales() {
    let mut d = DefaultedLocales::new(key("en"));
    d.push_default(key("fr-CA"), key("fr"));
    d.push_default(key("fr"), key("en"));
    d.push_default(key("de-AT"), key("de"));
    d.push_default(key("it"), key("en"));
    let groups = d.compute();
    let mut seen: Vec<String> = Vec::new();
    for (target, members) in &groups {
        assert!(!members.is_empty());
        for m in members {
            assert_eq!(d.default_of(m).name, target.name);
            assert!(!seen.contains(&m.name));
            seen.push(m.name.clone());
        }
    }
    seen.sort();
    assert_eq!(seen, vec!["de-AT", "fr", "fr-CA", "it"]);
    let names: Vec<&str> = groups.iter().map(|(t, _)| t.name.as_str()).collect();
    assert_eq!(names, vec!["de", "en"]);
}
