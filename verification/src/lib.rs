//! Verified core of an internationalisation toolkit: translation value parsing,
//! plural handling, locale fallback, accepted-language negotiation and
//! localized route rewriting.

mod text;
pub mod indexer;
pub mod accepted_lang;
pub mod translations;
pub mod builders;
pub mod routing;
pub mod reduce;
pub mod messages;
pub mod defaults;
pub mod merge;
pub mod copy;
pub mod formatters;
pub mod config;
pub mod plural_rules;
pub mod populate;
pub mod interning;
pub mod resolve;
pub mod locale_keys;
pub mod merge_keys;
pub mod options;
pub mod locale;
pub mod key;
pub mod formatter;
pub mod value;
pub mod error;
pub mod parse;
pub mod context;
pub mod num;
pub mod attrs;
pub mod plurals;

pub use plurals::{PluralForm, PluralRuleType};
