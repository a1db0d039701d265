use leptos_i18n::error::Error;
use leptos_i18n::formatters::FormatterKind;
use leptos_i18n::key::Key;
use leptos_i18n::options::{Config, FileFormat, ParseOptions};

fn key(s: &str) -> Key {
    Key::new(s).unwrap()
}

#[test]
fn config_builder_collects_locales() {
    let c = Config::new("en")
        .unwrap()
        .add_locale("fr")
        .unwrap()
        .add_locales(&vec!["de".to_string(), "it".to_string()])
        .unwrap()
        .add_namespaces(&vec!["common".to_string()])
        .unwrap()
        .extend_locale("fr_CA", "fr")
        .unwrap()
        .extend_locale("fr_CA", "en")
        .unwrap()
        .locales_path("i18n".to_string())
        .translations_uri("/t/{locale}".to_string());
    assert_eq!(c.default_locale, key("en"));
    assert_eq!(c.locales, vec![key("en"), key("fr"), key("de"), key("it")]);
    assert_eq!(c.namespaces, vec![key("common")]);
    assert_eq!(c.extensions, vec![(key("fr_CA"), key("en"))]);
    assert_eq!(c.locales_path, "i18n");
    assert_eq!(c.translations_uri.as_deref(), Some("/t/{locale}"));
    assert_eq!(Config::new("en").unwrap().locales_path, "locales");
}

#[test]
fn config_builder_rejects_invalid_keys() {
    assert_eq!(Config::new("not valid!").err().map(|e| e.message()), Some(Error::InvalidKey("not valid!".to_string()).message()));
    let e = Config::new("en").unwrap().add_locales(&vec!["fr".to_string(), "1x".to_string()]).err().unwrap();
    assert_eq!(e, Error::InvalidKey("1x".to_string()));
    let e = Config::new("en").unwrap().extend_locale("ok", "no way").err().unwrap();
    assert_eq!(e, Error::InvalidKey("no way".to_string()));
}

#[test]
fn parse_options_builders() {
    let o = ParseOptions::new().file_format(FileFormat::Yaml).suppress_key_warnings(true).show_keys_only(true);
    assert_eq!(o.file_format, FileFormat::Yaml);
    assert!(o.suppress_key_warnings);
    assert!(!o.interpolate_display);
    assert!(o.show_keys_only);
    assert_eq!(FileFormat::Yaml.get_files_exts(), vec!["yaml", "yml"]);
    assert_eq!(FileFormat::Json5.get_files_exts(), vec!["json5"]);
    let mut empty = ParseOptions::new();
    empty.formatters = leptos_i18n::formatters::Formatters::new_empty();
    let mut o = empty.add_formatter(FormatterKind::Number);
    assert!(o.formatters.insert_formatter(FormatterKind::Number).is_err());
    assert!(o.formatters.insert_formatter(FormatterKind::List).is_ok());
}
