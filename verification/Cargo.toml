[package]
name = "leptos_i18n"
version = "0.1.0"
edition = "2021"
publish = false

[dependencies]
syn = "=2.0.119"
icu_locale = "=2.4.0"
icu_plurals = "=2.4.0"
fixed_decimal = "=0.7.3"
tinystr = "=0.8.5"
serde_json = "=1.0.154"
serde = { version = "=1.0.229", features = ["derive"] }
toml = "*"
