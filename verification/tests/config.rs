use leptos_i18n::config::{
    config_section, contain_duplicates, finish_config, read_config, ConfigEntry, ConfigFieldError, ConfigFile, Field,
};
use leptos_i18n::error::Error;
use leptos_i18n::key::Key;
use leptos_i18n::translations::{I18nConfig, LocaleInner};

fn key(s: &str) -> Key {
    Key::new(s).unwrap()
}

fn keys(v: &[&str]) -> Vec<Key> {
    v.iter().map(|s| key(s)).collect()
}

#[test]
fn read_config_with_defaults() {
    let cfg = read_config(&vec![
        ConfigEntry::Unknown,
        ConfigEntry::Locales(keys(&["en", "fr"])),
        ConfigEntry::Default(key("en")),
    ])
    .unwrap();
    assert_eq!(cfg.default, key("en"));
    assert_eq!(cfg.locales, keys(&["en", "fr"]));
    assert_eq!(cfg.locales_dir, "locales");
    assert_eq!(cfg.name_spaces, None);
    assert_eq!(cfg.translations_uri, None);
}

#[test]
fn read_config_errors() {
    assert_eq!(
        read_config(&vec![ConfigEntry::Locales(keys(&["en"]))]).unwrap_err(),
        ConfigFieldError::Missing(Field::Default)
    );
    assert_eq!(
        read_config(&vec![ConfigEntry::Default(key("en"))]).unwrap_err(),
        ConfigFieldError::Missing(Field::Locales)
    );
    assert_eq!(
        read_config(&vec![
            ConfigEntry::LocalesDir("a".to_string()),
            ConfigEntry::Default(key("en")),
            ConfigEntry::LocalesDir("b".to_string()),
        ])
        .unwrap_err(),
        ConfigFieldError::Duplicate(Field::LocalesDir)
    );
}

fn cfg(default: &str, locales: &[&str], ns: Option<&[&str]>) -> ConfigFile {
    ConfigFile {
        default: key(default),
        locales: keys(locales),
        name_spaces: ns.map(keys),
        locales_dir: "locales".to_string(),
        translations_uri: None,
    }
}

#[test]
fn finish_config_puts_default_first() {
    let c = finish_config(cfg("fr", &["en", "de", "fr"], None)).unwrap();
    assert_eq!(c.locales, keys(&["fr", "de", "en"]));
    let c = finish_config(cfg("it", &["en", "de"], None)).unwrap();
    assert_eq!(c.locales, keys(&["it", "de", "en"]));
}

#[test]
fn finish_config_rejects_duplicates() {
    let e = finish_config(cfg("en", &["fr", "en", "fr", "de", "fr"], None)).unwrap_err();
    assert_eq!(e, Error::DuplicateLocalesInConfig(keys(&["fr"])));
    assert_eq!(
        e.message(),
        "Found duplicates locales in configuration (Cargo.toml): {\"fr\"}"
    );
    let e = finish_config(cfg("en", &["en"], Some(&["b", "a", "b", "a"]))).unwrap_err();
    assert_eq!(e, Error::DuplicateNamespacesInConfig(keys(&["a", "b"])));
}

#[test]
fn duplicates_are_sorted_and_unique() {
    let d = contain_duplicates(&keys(&["c", "a", "c", "b", "a", "c"])).unwrap();
    assert_eq!(d, vec![(key("a"), ()), (key("c"), ())]);
    assert!(contain_duplicates(&keys(&["a", "b"])).is_none());
}

#[test]
fn config_section_keeps_line_numbers() {
    let manifest = "[package]\nname = \"x\"\n[package.metadata.leptos-i18n]\ndefault = \"en\"\n";
    assert_eq!(config_section(manifest), Some("\n\n\ndefault = \"en\"\n".to_string()));
    assert_eq!(config_section("[package]\n"), None);
}

#[test]
fn i18n_config_finds_locales() {
    let mut en = LocaleInner::new("en".to_string());
    en.insert("hi".to_string(), "hello".to_string());
    let fr = LocaleInner::new("fr".to_string());
    let c = I18nConfig::new("fr", vec![en, fr]).unwrap();
    assert_eq!(c.default_locale().lang(), "fr");
    assert_eq!(c.get_local("en").unwrap().get_by_key("hi"), Some("hello"));
    assert!(c.get_local("de").is_none());
    assert!(I18nConfig::new("de", vec![LocaleInner::new("en".to_string())]).is_none());
}
