//! Translation keys (names usable as Rust identifiers) and key paths.

use vstd::prelude::*;
use crate::text::{spec_trim, trim, to_owned};

verus! {

/// Whether the string is accepted as a Rust identifier by `syn`'s `Ident` parser.
pub uninterp spec fn is_rust_ident(s: Seq<char>) -> bool;

/// Calls `syn::parse_str::<syn::Ident>`; the contract claims only that the
/// answer is a function of the string (named by `is_rust_ident`).
#[verifier::external_body]
fn parses_as_ident(s: &str) -> (res: bool)
    ensures
        res == is_rust_ident(s@),
{
    syn::parse_str::<syn::Ident>(s).is_ok()
}

/// `s` with every `-` replaced by `_`.
pub open spec fn dash_to_underscore(s: Seq<char>) -> Seq<char> {
    s.map_values(|c: char| if c == '-' { '_' } else { c })
}

/// A key of a translation file, usable as a Rust identifier.
#[derive(Debug, Clone, PartialEq, Eq, PartialOrd, Ord, Hash)]
pub struct Key {
    pub name: String,
}

impl View for Key {
    type V = Seq<char>;

    open spec fn view(&self) -> Seq<char> {
        self.name@
    }
}

/// The outcome of `Key::new` on a raw name.
pub open spec fn spec_key_new(name: Seq<char>) -> Option<Seq<char>> {
    let t = spec_trim(name);
    if is_rust_ident(dash_to_underscore(t)) {
        Some(t)
    } else {
        None
    }
}

/// A string with every `-` replaced by `_`.
pub fn replace_dashes(s: &str) -> (res: String)
    ensures
        res@ == dash_to_underscore(s@),
{
    let n = s.unicode_len();
    let mut out = String::new();
    let mut i: usize = 0;
    while i < n
        invariant
            n == s@.len(),
            i <= n,
            out@ == dash_to_underscore(s@.take(i as int)),
        decreases n - i,
    {
        let c = s.get_char(i);
        if c == '-' {
            out.append("_");
        } else {
            out.append(s.substring_char(i, i + 1));
        }
        proof {
            reveal_strlit("_");
            assert(s@.take(i + 1) =~= s@.take(i as int).push(c));
            assert(dash_to_underscore(s@.take(i + 1)) =~= dash_to_underscore(s@.take(i as int)).push(
                if c == '-' { '_' } else { c },
            ));
        }
        i = i + 1;
    }
    assert(s@.take(n as int) =~= s@);
    out
}

impl Key {
    /// Builds a key from a raw name: the name is trimmed, and must parse as
    /// a Rust identifier once dashes are replaced by underscores.
    pub fn new(name: &str) -> (res: Option<Key>)
        ensures
            res matches Some(k) ==> spec_key_new(name@) == Some(k@),
            res is None ==> spec_key_new(name@) is None,
    {
        let name = trim(name);
        let ident_repr = replace_dashes(name);
        if parses_as_ident(ident_repr.as_str()) {
            Some(Key { name: to_owned(name) })
        } else {
            None
        }
    }

    /// Like `new`, but reports an invalid name as an `InvalidKey` error.
    pub fn try_new(name: &str) -> (res: Result<Key, crate::error::Error>)
        ensures
            res matches Ok(k) ==> spec_key_new(name@) == Some(k@),
            res matches Err(e) ==> spec_key_new(name@) is None && e@ == crate::error::ErrV::InvalidKey(name@),
    {
        match Key::new(name) {
            Some(k) => Ok(k),
            None => Err(crate::error::Error::InvalidKey(to_owned(name))),
        }
    }

    /// The key of the plural count variable, `var_count`.
    pub fn count() -> (res: Option<Key>)
        ensures
            res matches Some(k) ==> spec_key_new("var_count"@) == Some(k@),
            res is None ==> spec_key_new("var_count"@) is None,
    {
        Key::new("var_count")
    }

    /// A copy of this key.
    pub fn copy(&self) -> (res: Key)
        ensures
            res == *self,
    {
        Key { name: self.name.clone() }
    }
}

/// The position of a value inside the translation files: an optional
/// namespace followed by the chain of keys leading to it.
#[derive(Debug, Clone, PartialEq, Eq, PartialOrd, Ord, Hash, Default)]
pub struct KeyPath {
    pub namespace: Option<Key>,
    pub path: Vec<Key>,
}

/// The names of a sequence of keys.
pub open spec fn key_names(keys: Seq<Key>) -> Seq<Seq<char>> {
    keys.map_values(|k: Key| k@)
}

/// `names` joined by `sep`.
pub open spec fn join_with(names: Seq<Seq<char>>, sep: Seq<char>) -> Seq<char>
    decreases names.len(),
{
    if names.len() == 0 {
        Seq::empty()
    } else if names.len() == 1 {
        names[0]
    } else {
        join_with(names.drop_last(), sep) + sep + names.last()
    }
}

/// The display form of a key path: `ns::a.b.c`.
pub open spec fn key_path_display(ns: Option<Seq<char>>, names: Seq<Seq<char>>) -> Seq<char> {
    let prefix = match ns {
        Some(n) => n + "::"@,
        None => Seq::empty(),
    };
    prefix + join_with(names, "."@)
}

/// View of a key path: namespace name and key names.
pub struct KeyPathV {
    pub namespace: Option<Seq<char>>,
    pub path: Seq<Seq<char>>,
}

impl View for KeyPath {
    type V = KeyPathV;

    open spec fn view(&self) -> KeyPathV {
        KeyPathV {
            namespace: match self.namespace {
                Some(k) => Some(k@),
                None => None,
            },
            path: self.path@.map_values(|k: Key| k@),
        }
    }
}

impl KeyPath {
    /// A copy of this path.
    pub fn copy(&self) -> (res: KeyPath)
        ensures
            res.namespace == self.namespace,
            res.path@ == self.path@,
            res@ == self@,
    {
        let mut path: Vec<Key> = Vec::new();
        let n = self.path.len();
        let mut i: usize = 0;
        while i < n
            invariant
                n == self.path@.len(),
                i <= n,
                path@ == self.path@.take(i as int),
            decreases n - i,
        {
            path.push(self.path[i].copy());
            assert(self.path@.take(i + 1) =~= self.path@.take(i as int).push(self.path@[i as int]));
            i = i + 1;
        }
        assert(self.path@.take(n as int) =~= self.path@);
        let namespace = match &self.namespace {
            Some(k) => Some(k.copy()),
            None => None,
        };
        KeyPath { namespace, path }
    }


    /// An empty path, optionally inside a namespace.
    pub fn new(namespace: Option<Key>) -> (res: KeyPath)
        ensures
            res.namespace == namespace,
            res.path@.len() == 0,
    {
        KeyPath { namespace, path: Vec::new() }
    }

    /// A path made of the given namespace and keys.
    pub fn new_from_path(namespace: Option<Key>, path: Vec<Key>) -> (res: KeyPath)
        ensures
            res.namespace == namespace,
            res.path@ == path@,
    {
        KeyPath { namespace, path }
    }

    /// Appends a key at the end of the path.
    pub fn push_key(&mut self, key: Key)
        ensures
            final(self).namespace == old(self).namespace,
            final(self).path@ == old(self).path@.push(key),
    {
        self.path.push(key);
    }

    /// Removes the last key of the path.
    pub fn pop_key(&mut self) -> (res: Option<Key>)
        ensures
            final(self).namespace == old(self).namespace,
            old(self).path@.len() == 0 ==> res is None && final(self).path@ == old(self).path@,
            old(self).path@.len() > 0 ==> res == Some(old(self).path@.last())
                && final(self).path@ == old(self).path@.drop_last(),
    {
        self.path.pop()
    }

    /// The display form `ns::a.b.c` of the path.
    pub fn to_display_string(&self) -> (res: String)
        ensures
            res@ == key_path_display(
                match self.namespace {
                    Some(n) => Some(n@),
                    None => None,
                },
                key_names(self.path@),
            ),
    {
        let mut s = String::new();
        match &self.namespace {
            Some(ns) => {
                s.append(ns.name.as_str());
                s.append("::");
            },
            None => {},
        }
        let ghost prefix = s@;
        proof {
            reveal_strlit("::");
        }
        let n = self.path.len();
        let mut i: usize = 0;
        while i < n
            invariant
                n == self.path@.len(),
                i <= n,
                s@ == prefix + join_with(key_names(self.path@.take(i as int)), "."@),
            decreases n - i,
        {
            proof {
                reveal_strlit(".");
                assert(key_names(self.path@.take(i + 1)).drop_last() =~= key_names(
                    self.path@.take(i as int),
                ));
            }
            if i > 0 {
                s.append(".");
            }
            s.append(self.path[i].name.as_str());
            proof {
                let names = key_names(self.path@.take(i + 1));
                assert(names.last() == self.path@[i as int]@);
                if i == 0 {
                    assert(names.len() == 1);
                    assert(join_with(key_names(self.path@.take(0)), "."@) =~= Seq::<char>::empty());
                }
            }
            i = i + 1;
        }
        assert(self.path@.take(n as int) =~= self.path@);
        s
    }

    /// The display form of this path extended with `key`, as used in
    /// generated names: `key` alone for an empty path, otherwise the path,
    /// a `.` (omitted right after a bare namespace) and `key`.
    pub fn to_string_with_key(&self, key: &Key) -> (res: String)
        ensures
            res@ == if self.namespace is None && self.path@.len() == 0 {
                key@
            } else {
                key_path_display(
                    match self.namespace {
                        Some(n) => Some(n@),
                        None => None,
                    },
                    key_names(self.path@),
                ) + (if self.namespace is None || self.path@.len() > 0 {
                    "."@
                } else {
                    Seq::empty()
                }) + key@
            },
    {
        if self.namespace.is_none() && self.path.len() == 0 {
            return key.name.clone();
        }
        let mut s = self.to_display_string();
        let ghost base = s@;
        if self.namespace.is_none() || self.path.len() > 0 {
            s.append(".");
        }
        s.append(key.name.as_str());
        proof {
            reveal_strlit(".");
            if self.namespace is None || self.path@.len() > 0 {
                assert(s@ =~= base + "."@ + key@);
            } else {
                assert(s@ =~= base + Seq::<char>::empty() + key@);
            }
        }
        s
    }
}

} // verus!
