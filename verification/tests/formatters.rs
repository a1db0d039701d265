use leptos_i18n::config::Field;
use leptos_i18n::error::Error;
use leptos_i18n::formatter::{
    CurrencyCode, CurrencyWidth, DateTimeAlignment, DateTimeLength, DateTimeTimePrecision, DateTimeYearStyle,
    Formatter, GroupingStrategy, ListStyle, ListType,
};
use leptos_i18n::formatters::{
    CurrencyFormatter, CurrencyFormatterParser, DateFormatter, DateFormatterParser, DateTimeFormatterParser,
    Formatters, ListFormatter, ListFormatterParser, NumberFormatter, NumberFormatterParser, TimeFormatter,
    TimeFormatterParser,
};
use leptos_i18n::key::{Key, KeyPath};
use leptos_i18n::value::VarBound;

fn key(s: &str) -> Key {
    Key::new(s).unwrap()
}

#[test]
fn number_formatter_arguments() {
    let mut diag: Vec<Error> = Vec::new();
    let kp = KeyPath::new(None);
    let f = NumberFormatterParser.parse_with_diagnostics(&key("en"), &kp, &[("grouping_strategy", Some("min2"))], true, &mut diag);
    assert_eq!(f, Some(NumberFormatter(GroupingStrategy::Min2)));
    assert!(diag.is_empty());
    let f = NumberFormatterParser.parse_with_diagnostics(&key("en"), &kp, &[], true, &mut diag);
    assert_eq!(f, Some(NumberFormatter(GroupingStrategy::Auto)));
}

#[test]
fn bad_arguments_are_reported() {
    let mut diag: Vec<Error> = Vec::new();
    let kp = KeyPath::new(None);
    let f = ListFormatterParser.parse_with_diagnostics(
        &key("en"),
        &kp,
        &[("list_type", Some("or")), ("list_style", Some("tiny")), ("list_type", Some("and"))],
        true,
        &mut diag,
    );
    assert_eq!(f, Some(ListFormatter(ListType::And, ListStyle::Wide)));
    assert_eq!(diag.len(), 2);
    assert_eq!(diag[0].message(), "Formatter argument value Some(\"tiny\") for argument name \"list_style\" is invalid at en/: unknown argument value");
    assert_eq!(diag[1].message(), "Formatter argument value Some(\"and\") for argument name \"list_type\" is invalid at en/: duplicate argument");

    let mut diag: Vec<Error> = Vec::new();
    let f = TimeFormatterParser.parse_with_diagnostics(&key("en"), &kp, &[("colour", None), ("length", None)], false, &mut diag);
    assert_eq!(f, None);
    assert_eq!(diag.len(), 3);
    assert!(matches!(diag[0], Error::DisabledFormatter { .. }));
    assert!(matches!(diag[1], Error::InvalidFormatterArgName { .. }));
    assert_eq!(diag[2].message(), "Formatter argument value None for argument name \"length\" is invalid at en/: missing value for argument");
}

#[test]
fn other_formatters() {
    let mut diag: Vec<Error> = Vec::new();
    let kp = KeyPath::new(None);
    assert_eq!(
        DateFormatterParser.parse_with_diagnostics(&key("en"), &kp, &[("year_style", Some("with_era"))], true, &mut diag),
        Some(DateFormatter(DateTimeLength::Medium, DateTimeAlignment::Auto, DateTimeYearStyle::WithEra))
    );
    assert_eq!(
        TimeFormatterParser.parse_with_diagnostics(&key("en"), &kp, &[("time_precision", Some("subsecond_s2"))], true, &mut diag),
        Some(TimeFormatter(
            DateTimeLength::Medium,
            DateTimeAlignment::Auto,
            DateTimeTimePrecision::Subsecond(leptos_i18n::formatter::DateTimeSubsecondDigits::S2)
        ))
    );
    assert!(DateTimeFormatterParser
        .parse_with_diagnostics(&key("en"), &kp, &[("length", Some("long"))], true, &mut diag)
        .is_some());
    let c = CurrencyFormatterParser.parse_with_diagnostics(
        &key("en"),
        &kp,
        &[("width", Some("narrow")), ("currency_code", Some("EUR"))],
        true,
        &mut diag,
    );
    assert_eq!(c, Some(CurrencyFormatter(CurrencyWidth::Narrow, CurrencyCode { b0: b'E', b1: b'U', b2: b'R' })));
    assert!(diag.is_empty());
    let c = CurrencyFormatterParser.parse_with_diagnostics(&key("en"), &kp, &[("currency_code", Some("EURO"))], true, &mut diag);
    assert_eq!(c, Some(CurrencyFormatter(CurrencyWidth::Short, CurrencyCode { b0: b'U', b1: b'S', b2: b'D' })));
    assert_eq!(diag.len(), 1);
    assert!(diag[0].message().contains("Invalid code: "));
}

#[test]
fn registry_dispatches_by_name() {
    let formatters = Formatters::new();
    let mut diag: Vec<Error> = Vec::new();
    let kp = KeyPath::new(None);
    assert_eq!(
        formatters.parse(&key("en"), &kp, "number", &[], true, &mut diag),
        VarBound::Formatted(Formatter::Number(GroupingStrategy::Auto))
    );
    assert_eq!(formatters.parse(&key("en"), &kp, "nope", &[], true, &mut diag), VarBound::Dummy);
    assert_eq!(diag.len(), 1);
    assert_eq!(diag[0].message(), "Unknown formatter \"nope\" at key \"\" in locale \"en\".");
}

#[test]
fn config_fields() {
    assert_eq!(Field::from_name("locales-dir"), Field::LocalesDir);
    assert_eq!(Field::from_name("other"), Field::Unknown);
    assert_eq!(Field::TranslationsUri.name(), "translations-uri");
    assert_eq!(Field::fields().len(), 5);
}

#[test]
fn error_messages() {
    let e = Error::ExplicitDefaultInDefault(KeyPath::new_from_path(Some(key("ns")), vec![key("a"), key("b")]));
    assert_eq!(e.message(), "Explicit defaults (null) are not allowed in default locale, at key \"ns::a.b\"");
    let e = Error::InvalidKey("a b".to_string());
    assert_eq!(
        e.message(),
        "invalid key \"a b\", it can't be used as a rust identifier, try removing whitespaces and special characters."
    );
}

#[test]
fn currency_codes_of_at_most_three_ascii_characters() {
    let eur = leptos_i18n::formatter::currency_code_from_str("EUR").unwrap();
    assert_eq!((eur.b0, eur.b1, eur.b2), (b'E', b'U', b'R'));
    let short = leptos_i18n::formatter::currency_code_from_str("eu").unwrap();
    assert_eq!((short.b0, short.b1, short.b2), (b'e', b'u', 0));
    let empty = leptos_i18n::formatter::currency_code_from_str("").unwrap();
    assert_eq!((empty.b0, empty.b1, empty.b2), (0, 0, 0));
    assert!(leptos_i18n::formatter::currency_code_from_str("EURO").is_err());
    assert!(leptos_i18n::formatter::currency_code_from_str("é").is_err());
    assert!(leptos_i18n::formatter::currency_code_from_str("a\0").is_err());
}
