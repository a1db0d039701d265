//! Errors reported while parsing and resolving translation values.

use vstd::prelude::*;
use crate::key::{Key, KeyPath, KeyPathV};
use crate::plurals::{PluralForm, PluralRuleType};

verus! {

/// An error found in the translations. Most carry the locale and key path
/// where it was found.
#[derive(Debug, Clone, PartialEq)]
pub enum Error {
    InvalidKey(String),
    InvalidKeyAt { key: String, locale: Key, key_path: KeyPath },
    InvalidForeignKeyArgs { locale: Key, key_path: KeyPath, err: String },
    UnexpectedToken { locale: Key, key_path: KeyPath, message: String },
    UnknownFormatter { name: String, locale: Key, key_path: KeyPath },
    DisabledFormatter { locale: Key, key_path: KeyPath, formatter_err: String },
    InvalidAttribute {
        locale: Key,
        key_path: KeyPath,
        attr_name: String,
        attr_value: String,
        err: String,
    },
    InvalidAttributeName { locale: Key, key_path: KeyPath, value: String },
    ExplicitDefaultInDefault(KeyPath),
    SubKeyMissmatch { locale: Key, key_path: KeyPath },
    InvalidCountArg { locale: Key, key_path: KeyPath, foreign_key: KeyPath },
    MissingForeignKey { foreign_key: KeyPath, locale: Key, key_path: KeyPath },
    InvalidForeignKey { foreign_key: KeyPath, locale: Key, key_path: KeyPath },
    RecursiveForeignKey { locale: Key, key_path: KeyPath },
    ConflictingPluralRuleType { locale: Key, key_path: KeyPath },
    PluralsAtNormalKey { locale: Key, key_path: KeyPath },
    DisabledPlurals { locale: Key, key_path: KeyPath },
    InvalidFormatterArgName { locale: Key, key_path: KeyPath, name: String, err: String },
    InvalidFormatterArg {
        locale: Key,
        key_path: KeyPath,
        arg_name: String,
        arg: Option<String>,
        err: String,
    },
    InvalidLocale { locale: String, err: String },
    PluralRulesError(String),
    ConfigNotPresent,
    DuplicateLocalesInConfig(Vec<Key>),
    DuplicateNamespacesInConfig(Vec<Key>),
}

/// View of an error.
pub enum ErrV {
    InvalidKey(Seq<char>),
    InvalidKeyAt { key: Seq<char>, locale: Seq<char>, key_path: KeyPathV },
    InvalidForeignKeyArgs { locale: Seq<char>, key_path: KeyPathV, err: Seq<char> },
    UnexpectedToken { locale: Seq<char>, key_path: KeyPathV, message: Seq<char> },
    UnknownFormatter { name: Seq<char>, locale: Seq<char>, key_path: KeyPathV },
    DisabledFormatter { locale: Seq<char>, key_path: KeyPathV, formatter_err: Seq<char> },
    InvalidAttribute {
        locale: Seq<char>,
        key_path: KeyPathV,
        attr_name: Seq<char>,
        attr_value: Seq<char>,
        err: Seq<char>,
    },
    InvalidAttributeName { locale: Seq<char>, key_path: KeyPathV, value: Seq<char> },
    ExplicitDefaultInDefault(KeyPathV),
    SubKeyMissmatch { locale: Seq<char>, key_path: KeyPathV },
    InvalidCountArg { locale: Seq<char>, key_path: KeyPathV, foreign_key: KeyPathV },
    MissingForeignKey { foreign_key: KeyPathV, locale: Seq<char>, key_path: KeyPathV },
    InvalidForeignKey { foreign_key: KeyPathV, locale: Seq<char>, key_path: KeyPathV },
    RecursiveForeignKey { locale: Seq<char>, key_path: KeyPathV },
    ConflictingPluralRuleType { locale: Seq<char>, key_path: KeyPathV },
    PluralsAtNormalKey { locale: Seq<char>, key_path: KeyPathV },
    DisabledPlurals { locale: Seq<char>, key_path: KeyPathV },
    InvalidFormatterArgName { locale: Seq<char>, key_path: KeyPathV, name: Seq<char>, err: Seq<char> },
    InvalidFormatterArg {
        locale: Seq<char>,
        key_path: KeyPathV,
        arg_name: Seq<char>,
        arg: Option<Seq<char>>,
        err: Seq<char>,
    },
    InvalidLocale { locale: Seq<char>, err: Seq<char> },
    PluralRulesError(Seq<char>),
    ConfigNotPresent,
    DuplicateLocalesInConfig(Seq<Seq<char>>),
    DuplicateNamespacesInConfig(Seq<Seq<char>>),
}

impl View for Error {
    type V = ErrV;

    open spec fn view(&self) -> ErrV {
        match self {
            Error::InvalidKey(k) => ErrV::InvalidKey(k@),
            Error::InvalidKeyAt { key, locale, key_path } => ErrV::InvalidKeyAt {
                key: key@,
                locale: locale@,
                key_path: key_path@,
            },
            Error::InvalidForeignKeyArgs { locale, key_path, err } => ErrV::InvalidForeignKeyArgs {
                locale: locale@,
                key_path: key_path@,
                err: err@,
            },
            Error::UnexpectedToken { locale, key_path, message } => ErrV::UnexpectedToken {
                locale: locale@,
                key_path: key_path@,
                message: message@,
            },
            Error::UnknownFormatter { name, locale, key_path } => ErrV::UnknownFormatter {
                name: name@,
                locale: locale@,
                key_path: key_path@,
            },
            Error::DisabledFormatter { locale, key_path, formatter_err } => ErrV::DisabledFormatter {
                locale: locale@,
                key_path: key_path@,
                formatter_err: formatter_err@,
            },
            Error::InvalidAttribute { locale, key_path, attr_name, attr_value, err } =>
                ErrV::InvalidAttribute {
                locale: locale@,
                key_path: key_path@,
                attr_name: attr_name@,
                attr_value: attr_value@,
                err: err@,
            },
            Error::InvalidAttributeName { locale, key_path, value } => ErrV::InvalidAttributeName {
                locale: locale@,
                key_path: key_path@,
                value: value@,
            },
            Error::ExplicitDefaultInDefault(kp) => ErrV::ExplicitDefaultInDefault(kp@),
            Error::SubKeyMissmatch { locale, key_path } => ErrV::SubKeyMissmatch { locale: locale@, key_path: key_path@ },
            Error::InvalidCountArg { locale, key_path, foreign_key } => ErrV::InvalidCountArg {
                locale: locale@,
                key_path: key_path@,
                foreign_key: foreign_key@,
            },
            Error::MissingForeignKey { foreign_key, locale, key_path } => ErrV::MissingForeignKey {
                foreign_key: foreign_key@,
                locale: locale@,
                key_path: key_path@,
            },
            Error::InvalidForeignKey { foreign_key, locale, key_path } => ErrV::InvalidForeignKey {
                foreign_key: foreign_key@,
                locale: locale@,
                key_path: key_path@,
            },
            Error::RecursiveForeignKey { locale, key_path } => ErrV::RecursiveForeignKey {
                locale: locale@,
                key_path: key_path@,
            },
            Error::ConflictingPluralRuleType { locale, key_path } => ErrV::ConflictingPluralRuleType {
                locale: locale@,
                key_path: key_path@,
            },
            Error::PluralsAtNormalKey { locale, key_path } => ErrV::PluralsAtNormalKey {
                locale: locale@,
                key_path: key_path@,
            },
            Error::DisabledPlurals { locale, key_path } => ErrV::DisabledPlurals {
                locale: locale@,
                key_path: key_path@,
            },
            Error::InvalidFormatterArgName { locale, key_path, name, err } =>
                ErrV::InvalidFormatterArgName {
                locale: locale@,
                key_path: key_path@,
                name: name@,
                err: err@,
            },
            Error::InvalidFormatterArg { locale, key_path, arg_name, arg, err } =>
                ErrV::InvalidFormatterArg {
                locale: locale@,
                key_path: key_path@,
                arg_name: arg_name@,
                arg: match arg {
                    Some(a) => Some(a@),
                    None => None,
                },
                err: err@,
            },
            Error::InvalidLocale { locale, err } => ErrV::InvalidLocale { locale: locale@, err: err@ },
            Error::PluralRulesError(err) => ErrV::PluralRulesError(err@),
            Error::ConfigNotPresent => ErrV::ConfigNotPresent,
            Error::DuplicateLocalesInConfig(ks) => ErrV::DuplicateLocalesInConfig(ks@.map_values(|k: Key| k@)),
            Error::DuplicateNamespacesInConfig(ks) => ErrV::DuplicateNamespacesInConfig(
                ks@.map_values(|k: Key| k@),
            ),
        }
    }
}

/// The views of a sequence of errors.
pub open spec fn errs_view(s: Seq<Error>) -> Seq<ErrV> {
    s.map_values(|e: Error| e@)
}

pub proof fn lemma_errs_push(s: Seq<Error>, e: Error)
    ensures
        errs_view(s.push(e)) == errs_view(s).push(e@),
{
    assert(errs_view(s.push(e)) =~= errs_view(s).push(e@));
}

/// A warning about the translations: they are still usable.
#[derive(Debug, PartialEq)]
pub enum Warning {
    MissingKey { locale: Key, key_path: KeyPath },
    SurplusKey { locale: Key, key_path: KeyPath },
    UnusedForm { locale: Key, key_path: KeyPath, form: PluralForm, rule_type: PluralRuleType },
}

pub enum WarnV {
    MissingKey { locale: Seq<char>, key_path: KeyPathV },
    SurplusKey { locale: Seq<char>, key_path: KeyPathV },
    UnusedForm { locale: Seq<char>, key_path: KeyPathV, form: PluralForm, rule_type: PluralRuleType },
}

impl View for Warning {
    type V = WarnV;

    open spec fn view(&self) -> WarnV {
        match self {
            Warning::MissingKey { locale, key_path } => WarnV::MissingKey { locale: locale@, key_path: key_path@ },
            Warning::SurplusKey { locale, key_path } => WarnV::SurplusKey { locale: locale@, key_path: key_path@ },
            Warning::UnusedForm { locale, key_path, form, rule_type } => WarnV::UnusedForm {
                locale: locale@,
                key_path: key_path@,
                form: *form,
                rule_type: *rule_type,
            },
        }
    }
}

/// The views of a sequence of warnings.
pub open spec fn warnings_view(w: Seq<Warning>) -> Seq<WarnV> {
    w.map_values(|x: Warning| x@)
}

} // verus!
