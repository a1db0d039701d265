//! The messages of the errors, worded as the diagnostics show them.

use vstd::prelude::*;
use crate::error::{ErrV, Error, WarnV, Warning};
use crate::plurals::{form_text, rule_text};
use crate::key::{Key, KeyPath, KeyPathV, key_path_display};

verus! {

/// What `{:?}` writes for a string: the string quoted, with the characters
/// that `str::escape_debug` escapes escaped.
pub uninterp spec fn debug_quoted(s: Seq<char>) -> Seq<char>;

/// Calls `format!("{:?}", s)`; the contract claims only that the result is a
/// function of the string.
#[verifier::external_body]
fn quoted(s: &str) -> (res: String)
    ensures
        res@ == debug_quoted(s@),
{
    format!("{:?}", s)
}

/// The display of a key path: `ns::a.b.c`.
pub open spec fn kp_text(k: KeyPathV) -> Seq<char> {
    key_path_display(k.namespace, k.path)
}

/// The display of a location: `locale/key_path`.
pub open spec fn loc_text(locale: Seq<char>, k: KeyPathV) -> Seq<char> {
    locale + "/"@ + kp_text(k)
}

/// What `{:?}` writes for a set of keys: each name quoted, between braces.
pub open spec fn set_debug(ks: Seq<Seq<char>>) -> Seq<char> {
    "{"@ + crate::key::join_with(ks.map_values(|k: Seq<char>| debug_quoted(k)), ", "@) + "}"@
}

fn push_set(s: &mut String, ks: &Vec<Key>)
    ensures
        final(s)@ == old(s)@ + set_debug(ks@.map_values(|k: Key| k@)),
{
    let ghost s0 = s@;
    let ghost qs = ks@.map_values(|k: Key| k@).map_values(|k: Seq<char>| debug_quoted(k));
    s.append("{");
    let mut i: usize = 0;
    while i < ks.len()
        invariant
            i <= ks@.len(),
            qs == ks@.map_values(|k: Key| k@).map_values(|k: Seq<char>| debug_quoted(k)),
            qs.len() == ks@.len(),
            s@ == s0 + "{"@ + crate::key::join_with(qs.take(i as int), ", "@),
        decreases ks@.len() - i,
    {
        if i > 0 {
            s.append(", ");
        }
        push_quoted(s, ks[i].name.as_str());
        proof {
            assert(qs.take(i + 1).drop_last() =~= qs.take(i as int));
            assert(qs[i as int] == debug_quoted(ks@[i as int]@));
            if i == 0 {
                assert(qs.take(1) =~= seq![qs[0]]);
                assert(crate::key::join_with(qs.take(0), ", "@) =~= Seq::<char>::empty());
            }
        }
        i = i + 1;
    }
    assert(qs.take(i as int) =~= qs);
    s.append("}");
}

/// What `{:?}` writes for an optional string.
pub open spec fn opt_debug(o: Option<Seq<char>>) -> Seq<char> {
    match o {
        Some(a) => "Some("@ + debug_quoted(a) + ")"@,
        None => "None"@,
    }
}

/// ` at key "<path>" in locale <locale>` as the messages write it.
pub open spec fn at_key_in(locale: Seq<char>, k: KeyPathV) -> Seq<char> {
    "at key \""@ + kp_text(k) + "\" in locale "@ + debug_quoted(locale)
}

/// The message of an error.
pub open spec fn spec_message(e: ErrV) -> Seq<char> {
    match e {
        ErrV::InvalidKey(key) => "invalid key "@ + debug_quoted(key)
            + ", it can't be used as a rust identifier, try removing whitespaces and special characters."@,
        ErrV::InvalidKeyAt { key, locale, key_path } => "invalid key "@ + debug_quoted(key) + " at "@
            + loc_text(locale, key_path)
            + ", it can't be used as a rust identifier, try removing whitespaces and special characters."@,
        ErrV::InvalidForeignKeyArgs { locale, key_path, err } => "Malformed foreign key args in locale "@
            + debug_quoted(locale) + " at key \""@ + kp_text(key_path) + "\": "@ + err + "."@,
        ErrV::UnexpectedToken { locale, key_path, message } =>
            "Unexpected error occured while parsing key \""@ + kp_text(key_path) + "\" in locale "@
            + debug_quoted(locale) + ": "@ + message,
        ErrV::UnknownFormatter { name, locale, key_path } => "Unknown formatter "@ + debug_quoted(name)
            + " "@ + at_key_in(locale, key_path) + "."@,
        ErrV::DisabledFormatter { locale, key_path, formatter_err } => formatter_err + ", "@ + at_key_in(
            locale,
            key_path,
        ),
        ErrV::InvalidAttribute { locale, key_path, attr_name, attr_value, err } =>
            "Invalid component attribute value "@ + debug_quoted(attr_value) + " for attribute "@
            + debug_quoted(attr_name) + " at "@ + loc_text(locale, key_path) + ": "@ + err,
        ErrV::InvalidAttributeName { locale, key_path, value } => "Invalid attribute name "@
            + debug_quoted(value) + " at "@ + loc_text(locale, key_path),
        ErrV::ExplicitDefaultInDefault(key_path) =>
            "Explicit defaults (null) are not allowed in default locale, at key \""@ + kp_text(key_path)
            + "\""@,
        ErrV::SubKeyMissmatch { locale, key_path } => "Missmatch value type beetween locale "@ + debug_quoted(locale)
            + " and default at key \""@ + kp_text(key_path)
            + "\": one has subkeys and the other has direct value."@,
        ErrV::InvalidCountArg { locale, key_path, foreign_key } => "Invalid arg \"count\" in locale "@
            + debug_quoted(locale) + " at key \""@ + kp_text(key_path) + "\" to foreign key \""@
            + kp_text(foreign_key)
            + "\": argument \"count\" for plurals or ranges can only be a literal number or a single variable."@,
        ErrV::MissingForeignKey { foreign_key, locale, key_path } => "Invalid foreign key \""@ + kp_text(
            foreign_key,
        ) + "\" "@ + at_key_in(locale, key_path) + ", key don't exist."@,
        ErrV::InvalidForeignKey { foreign_key, locale, key_path } => "Invalid foreign key \""@ + kp_text(
            foreign_key,
        ) + "\" "@ + at_key_in(locale, key_path) + ", foreign key to subkeys are not allowed."@,
        ErrV::RecursiveForeignKey { locale, key_path } => "Borrow Error while linking foreign key "@
            + at_key_in(locale, key_path) + ", check for recursive foreign key."@,
        ErrV::ConflictingPluralRuleType { locale, key_path } =>
            "Found both ordinal and cardinal plurals for key \""@ + kp_text(key_path) + "\" in locale "@
            + debug_quoted(locale) + "."@,
        ErrV::PluralsAtNormalKey { locale, key_path } => "In locale "@ + debug_quoted(locale)
            + " at key \""@ + kp_text(key_path)
            + "\", Found plurals but a key of that name is already present."@,
        ErrV::DisabledPlurals { locale, key_path } =>
            "Plurals are not enabled, enable the \"plurals\" feature to use them, "@ + at_key_in(
            locale,
            key_path,
        ),
        ErrV::InvalidFormatterArgName { locale, key_path, name, err } => "Formatter argument name "@
            + debug_quoted(name) + " is invalid at "@ + loc_text(locale, key_path) + ": "@ + err,
        ErrV::InvalidLocale { locale, err } => "Found invalid locale "@ + debug_quoted(locale) + ": "@ + err,
        ErrV::PluralRulesError(err) => "Error while computing plurals categories: "@ + err,
        ErrV::ConfigNotPresent =>
            "Could not found \"[package.metadata.leptos-i18n]\" in cargo manifest (Cargo.toml)"@,
        ErrV::DuplicateLocalesInConfig(ks) => "Found duplicates locales in configuration (Cargo.toml): "@
            + set_debug(ks),
        ErrV::DuplicateNamespacesInConfig(ks) => "Found duplicates namespaces in configuration (Cargo.toml): "@
            + set_debug(ks),
        ErrV::InvalidFormatterArg { locale, key_path, arg_name, arg, err } =>
            "Formatter argument value "@ + opt_debug(arg) + " for argument name "@ + debug_quoted(
            arg_name,
        ) + " is invalid at "@ + loc_text(locale, key_path) + ": "@ + err,
    }
}

fn push_kp(s: &mut String, k: &KeyPath)
    ensures
        final(s)@ == old(s)@ + kp_text(k@),
{
    let t = k.to_display_string();
    s.append(t.as_str());
}

fn push_quoted(s: &mut String, t: &str)
    ensures
        final(s)@ == old(s)@ + debug_quoted(t@),
{
    let q = quoted(t);
    s.append(q.as_str());
}

fn push_loc(s: &mut String, locale: &Key, k: &KeyPath)
    ensures
        final(s)@ == old(s)@ + loc_text(locale@, k@),
{
    s.append(locale.name.as_str());
    s.append("/");
    push_kp(s, k);
}

fn push_at_key_in(s: &mut String, locale: &Key, k: &KeyPath)
    ensures
        final(s)@ == old(s)@ + at_key_in(locale@, k@),
{
    s.append("at key \"");
    push_kp(s, k);
    s.append("\" in locale ");
    push_quoted(s, locale.name.as_str());
}

impl Error {
    /// The message of this error (see `spec_message`).
    pub fn message(&self) -> (res: String)
        ensures
            res@ == spec_message(self@),
    {
        let mut s = String::new();
        match self {
            Error::InvalidKey(key) => {
                s.append("invalid key ");
                push_quoted(&mut s, key.as_str());
                s.append(
                    ", it can't be used as a rust identifier, try removing whitespaces and special characters.",
                );
            },
            Error::InvalidKeyAt { key, locale, key_path } => {
                s.append("invalid key ");
                push_quoted(&mut s, key.as_str());
                s.append(" at ");
                push_loc(&mut s, locale, key_path);
                s.append(
                    ", it can't be used as a rust identifier, try removing whitespaces and special characters.",
                );
            },
            Error::InvalidForeignKeyArgs { locale, key_path, err } => {
                s.append("Malformed foreign key args in locale ");
                push_quoted(&mut s, locale.name.as_str());
                s.append(" at key \"");
                push_kp(&mut s, key_path);
                s.append("\": ");
                s.append(err.as_str());
                s.append(".");
            },
            Error::UnexpectedToken { locale, key_path, message } => {
                s.append("Unexpected error occured while parsing key \"");
                push_kp(&mut s, key_path);
                s.append("\" in locale ");
                push_quoted(&mut s, locale.name.as_str());
                s.append(": ");
                s.append(message.as_str());
            },
            Error::UnknownFormatter { name, locale, key_path } => {
                s.append("Unknown formatter ");
                push_quoted(&mut s, name.as_str());
                s.append(" ");
                push_at_key_in(&mut s, locale, key_path);
                s.append(".");
            },
            Error::DisabledFormatter { locale, key_path, formatter_err } => {
                s.append(formatter_err.as_str());
                s.append(", ");
                push_at_key_in(&mut s, locale, key_path);
            },
            Error::InvalidAttribute { locale, key_path, attr_name, attr_value, err } => {
                s.append("Invalid component attribute value ");
                push_quoted(&mut s, attr_value.as_str());
                s.append(" for attribute ");
                push_quoted(&mut s, attr_name.as_str());
                s.append(" at ");
                push_loc(&mut s, locale, key_path);
                s.append(": ");
                s.append(err.as_str());
            },
            Error::InvalidAttributeName { locale, key_path, value } => {
                s.append("Invalid attribute name ");
                push_quoted(&mut s, value.as_str());
                s.append(" at ");
                push_loc(&mut s, locale, key_path);
            },
            Error::ExplicitDefaultInDefault(key_path) => {
                s.append("Explicit defaults (null) are not allowed in default locale, at key \"");
                push_kp(&mut s, key_path);
                s.append("\"");
            },
            Error::SubKeyMissmatch { locale, key_path } => {
                s.append("Missmatch value type beetween locale ");
                push_quoted(&mut s, locale.name.as_str());
                s.append(" and default at key \"");
                push_kp(&mut s, key_path);
                s.append("\": one has subkeys and the other has direct value.");
            },
            Error::InvalidCountArg { locale, key_path, foreign_key } => {
                s.append("Invalid arg \"count\" in locale ");
                push_quoted(&mut s, locale.name.as_str());
                s.append(" at key \"");
                push_kp(&mut s, key_path);
                s.append("\" to foreign key \"");
                push_kp(&mut s, foreign_key);
                s.append(
                    "\": argument \"count\" for plurals or ranges can only be a literal number or a single variable.",
                );
            },
            Error::MissingForeignKey { foreign_key, locale, key_path } => {
                s.append("Invalid foreign key \"");
                push_kp(&mut s, foreign_key);
                s.append("\" ");
                push_at_key_in(&mut s, locale, key_path);
                s.append(", key don't exist.");
            },
            Error::RecursiveForeignKey { locale, key_path } => {
                s.append("Borrow Error while linking foreign key ");
                push_at_key_in(&mut s, locale, key_path);
                s.append(", check for recursive foreign key.");
            },
            Error::InvalidForeignKey { foreign_key, locale, key_path } => {
                s.append("Invalid foreign key \"");
                push_kp(&mut s, foreign_key);
                s.append("\" ");
                push_at_key_in(&mut s, locale, key_path);
                s.append(", foreign key to subkeys are not allowed.");
            },
            Error::ConflictingPluralRuleType { locale, key_path } => {
                s.append("Found both ordinal and cardinal plurals for key \"");
                push_kp(&mut s, key_path);
                s.append("\" in locale ");
                push_quoted(&mut s, locale.name.as_str());
                s.append(".");
            },
            Error::PluralsAtNormalKey { locale, key_path } => {
                s.append("In locale ");
                push_quoted(&mut s, locale.name.as_str());
                s.append(" at key \"");
                push_kp(&mut s, key_path);
                s.append("\", Found plurals but a key of that name is already present.");
            },
            Error::DisabledPlurals { locale, key_path } => {
                s.append("Plurals are not enabled, enable the \"plurals\" feature to use them, ");
                push_at_key_in(&mut s, locale, key_path);
            },
            Error::InvalidFormatterArgName { locale, key_path, name, err } => {
                s.append("Formatter argument name ");
                push_quoted(&mut s, name.as_str());
                s.append(" is invalid at ");
                push_loc(&mut s, locale, key_path);
                s.append(": ");
                s.append(err.as_str());
            },
            Error::InvalidFormatterArg { locale, key_path, arg_name, arg, err } => {
                s.append("Formatter argument value ");
                match arg {
                    Some(a) => {
                        s.append("Some(");
                        push_quoted(&mut s, a.as_str());
                        s.append(")");
                    },
                    None => s.append("None"),
                }
                s.append(" for argument name ");
                push_quoted(&mut s, arg_name.as_str());
                s.append(" is invalid at ");
                push_loc(&mut s, locale, key_path);
                s.append(": ");
                s.append(err.as_str());
            },
            Error::InvalidLocale { locale, err } => {
                s.append("Found invalid locale ");
                push_quoted(&mut s, locale.as_str());
                s.append(": ");
                s.append(err.as_str());
            },
            Error::PluralRulesError(err) => {
                s.append("Error while computing plurals categories: ");
                s.append(err.as_str());
            },
            Error::ConfigNotPresent => {
                s.append("Could not found \"[package.metadata.leptos-i18n]\" in cargo manifest (Cargo.toml)");
            },
            Error::DuplicateLocalesInConfig(ks) => {
                s.append("Found duplicates locales in configuration (Cargo.toml): ");
                push_set(&mut s, ks);
            },
            Error::DuplicateNamespacesInConfig(ks) => {
                s.append("Found duplicates namespaces in configuration (Cargo.toml): ");
                push_set(&mut s, ks);
            },
        }
        proof {
            reveal_strlit("");
        }
        assert(s@ =~= spec_message(self@));
        s
    }
}

/// The message of a warning.
pub open spec fn spec_warning_message(w: WarnV) -> Seq<char> {
    match w {
        WarnV::MissingKey { locale, key_path } => "Missing key \""@ + kp_text(key_path) + "\" in locale "@
            + debug_quoted(locale),
        WarnV::SurplusKey { locale, key_path } => "Key \""@ + kp_text(key_path) + "\" is present in locale "@
            + debug_quoted(locale) + " but not in default locale, it is ignored"@,
        WarnV::UnusedForm { locale, key_path, form, rule_type } => "At key \""@ + kp_text(key_path)
            + "\", locale "@ + debug_quoted(locale) + " does not use "@ + rule_text(rule_type) + " plural form \""@
            + form_text(form) + "\", it is still kept but is useless."@,
    }
}

impl Warning {
    /// The message shown for the warning (see `spec_warning_message`).
    pub fn message(&self) -> (res: String)
        ensures
            res@ == spec_warning_message(self@),
    {
        let mut s = String::new();
        proof {
            reveal_strlit("");
        }
        match self {
            Warning::MissingKey { locale, key_path } => {
                s.append("Missing key \"");
                push_kp(&mut s, key_path);
                s.append("\" in locale ");
                push_quoted(&mut s, locale.name.as_str());
            },
            Warning::SurplusKey { locale, key_path } => {
                s.append("Key \"");
                push_kp(&mut s, key_path);
                s.append("\" is present in locale ");
                push_quoted(&mut s, locale.name.as_str());
                s.append(" but not in default locale, it is ignored");
            },
            Warning::UnusedForm { locale, key_path, form, rule_type } => {
                s.append("At key \"");
                push_kp(&mut s, key_path);
                s.append("\", locale ");
                push_quoted(&mut s, locale.name.as_str());
                s.append(" does not use ");
                s.append(rule_type.text());
                s.append(" plural form \"");
                s.append(form.text());
                s.append("\", it is still kept but is useless.");
            },
        }
        assert(s@ =~= spec_warning_message(self@));
        s
    }
}

} // verus!
