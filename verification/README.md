# leptos_i18n

The core of an internationalisation toolkit, written in Verus with its
behaviour stated as contracts and proved:

- parsing of translation strings (components, variables with formatters,
  foreign keys and their arguments, component attributes);
- plural forms: gathering `key_one`, `key_other`, ... into one plural value
  (with a warning for each form the locale never selects), choosing a form
  for a count, checking the forms a locale uses;
- foreign keys: linking `$t(...)` references across a locale, with cycle
  detection, and filling the referenced value with the given arguments;
- simplification of values, interning of their strings, and the keys each
  translation needs (variables, bounds, components);
- checking the locales against the default locale: missing and surplus keys,
  nested keys merged level by level (nested against plain is an error),
  fallbacks (declared inheritance, base locale, default locale);
- the configuration table, parse options, accepted-language negotiation and
  localized routes.

`src/` is the verified library. `tests/` runs it on concrete values.
`app/` is the unverified edge: reading `Cargo.toml` with `toml`/`serde`,
reading the translation files (JSON or TOML) and handing their strings to
the library's parser, ranking `Accept-Language` entries by their (floating-point) quality, and
`Display` for the library's messages.
