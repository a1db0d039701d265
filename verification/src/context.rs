//! Where a value is being parsed: the locale, the key path, and the enabled
//! formatter families; errors found there carry the first two.

use vstd::prelude::*;
use crate::error::{ErrV, Error};
use crate::formatter::FormatterFeatures;
use crate::key::{Key, KeyPath, KeyPathV};
use crate::text::to_owned;

verus! {

/// The parsing context of a value.
pub struct Context<'a> {
    pub key_path: &'a KeyPath,
    pub locale: &'a Key,
    pub features: FormatterFeatures,
}

/// View of a parsing context.
pub struct CtxV {
    pub locale: Seq<char>,
    pub key_path: KeyPathV,
    pub features: FormatterFeatures,
}

impl<'a> View for Context<'a> {
    type V = CtxV;

    open spec fn view(&self) -> CtxV {
        CtxV { locale: self.locale@, key_path: self.key_path@, features: self.features }
    }
}

impl<'a> Context<'a> {
    /// An `UnexpectedToken` error at this context.
    pub fn unexpected_token(&self, message: &str) -> (res: Error)
        ensures
            res@ == (ErrV::UnexpectedToken {
                locale: self@.locale,
                key_path: self@.key_path,
                message: message@,
            }),
    {
        Error::UnexpectedToken {
            locale: self.locale.copy(),
            key_path: self.key_path.copy(),
            message: to_owned(message),
        }
    }

    /// An `InvalidForeignKeyArgs` error at this context.
    pub fn invalid_fk_args(&self, err: String) -> (res: Error)
        ensures
            res@ == (ErrV::InvalidForeignKeyArgs {
                locale: self@.locale,
                key_path: self@.key_path,
                err: err@,
            }),
    {
        Error::InvalidForeignKeyArgs {
            locale: self.locale.copy(),
            key_path: self.key_path.copy(),
            err,
        }
    }

    /// An `InvalidAttribute` error at this context.
    pub fn invalid_attribute(&self, attr_name: &str, attr_value: &str, err: &str) -> (res: Error)
        ensures
            res@ == (ErrV::InvalidAttribute {
                locale: self@.locale,
                key_path: self@.key_path,
                attr_name: attr_name@,
                attr_value: attr_value@,
                err: err@,
            }),
    {
        Error::InvalidAttribute {
            locale: self.locale.copy(),
            key_path: self.key_path.copy(),
            attr_name: to_owned(attr_name),
            attr_value: to_owned(attr_value),
            err: to_owned(err),
        }
    }

    /// An `InvalidAttributeName` error at this context.
    pub fn invalid_attribute_name(&self, value: &str) -> (res: Error)
        ensures
            res@ == (ErrV::InvalidAttributeName {
                locale: self@.locale,
                key_path: self@.key_path,
                value: value@,
            }),
    {
        Error::InvalidAttributeName {
            locale: self.locale.copy(),
            key_path: self.key_path.copy(),
            value: to_owned(value),
        }
    }

    /// An `InvalidKeyAt` error at this context.
    pub fn invalid_key_at(&self, key: &str) -> (res: Error)
        ensures
            res@ == (ErrV::InvalidKeyAt {
                key: key@,
                locale: self@.locale,
                key_path: self@.key_path,
            }),
    {
        Error::InvalidKeyAt {
            key: to_owned(key),
            locale: self.locale.copy(),
            key_path: self.key_path.copy(),
        }
    }

    /// An `UnknownFormatter` error at this context.
    pub fn unknown_formatter(&self, name: &str) -> (res: Error)
        ensures
            res@ == (ErrV::UnknownFormatter {
                name: name@,
                locale: self@.locale,
                key_path: self@.key_path,
            }),
    {
        Error::UnknownFormatter {
            name: to_owned(name),
            locale: self.locale.copy(),
            key_path: self.key_path.copy(),
        }
    }

    /// A `DisabledFormatter` error at this context.
    pub fn disabled_formatter(&self, formatter_err: &str) -> (res: Error)
        ensures
            res@ == (ErrV::DisabledFormatter {
                locale: self@.locale,
                key_path: self@.key_path,
                formatter_err: formatter_err@,
            }),
    {
        Error::DisabledFormatter {
            locale: self.locale.copy(),
            key_path: self.key_path.copy(),
            formatter_err: to_owned(formatter_err),
        }
    }
}

} // verus!
