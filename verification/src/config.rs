//! The `[package.metadata.leptos-i18n]` configuration table: its fields,
//! how a table read field by field becomes a configuration, and the checks
//! made on it.

use vstd::prelude::*;
use crate::builders::{find_slot, keys_of, lemma_slot, map_put};
use crate::error::Error;
use crate::key::Key;
use crate::text::{split_once, str_eq, to_owned};

verus! {

/// A field of the configuration table; `Unknown` for any other name, which
/// is skipped.
#[derive(Debug, Clone, Copy, PartialEq, Eq, Structural)]
pub enum Field {
    Default,
    Locales,
    Namespaces,
    LocalesDir,
    TranslationsUri,
    Unknown,
}

/// The field a name designates.
pub open spec fn spec_field(v: Seq<char>) -> Field {
    if v == "default"@ {
        Field::Default
    } else if v == "locales"@ {
        Field::Locales
    } else if v == "namespaces"@ {
        Field::Namespaces
    } else if v == "locales-dir"@ {
        Field::LocalesDir
    } else if v == "translations-uri"@ {
        Field::TranslationsUri
    } else {
        Field::Unknown
    }
}

/// The name of a known field.
pub open spec fn spec_field_name(f: Field) -> Seq<char> {
    match f {
        Field::Default => "default"@,
        Field::Locales => "locales"@,
        Field::Namespaces => "namespaces"@,
        Field::LocalesDir => "locales-dir"@,
        Field::TranslationsUri => "translations-uri"@,
        Field::Unknown => Seq::empty(),
    }
}

impl Field {
    /// The field a name designates; `Unknown` for an unknown name.
    pub fn from_name(v: &str) -> (res: Field)
        ensures
            res == spec_field(v@),
    {
        if str_eq(v, "default") {
            Field::Default
        } else if str_eq(v, "locales") {
            Field::Locales
        } else if str_eq(v, "namespaces") {
            Field::Namespaces
        } else if str_eq(v, "locales-dir") {
            Field::LocalesDir
        } else if str_eq(v, "translations-uri") {
            Field::TranslationsUri
        } else {
            Field::Unknown
        }
    }

    /// The name of a known field; empty for `Unknown`.
    pub fn name(&self) -> (res: &'static str)
        ensures
            res@ == spec_field_name(*self),
    {
        proof {
            reveal_strlit("");
        }
        match self {
            Field::Default => "default",
            Field::Locales => "locales",
            Field::Namespaces => "namespaces",
            Field::LocalesDir => "locales-dir",
            Field::TranslationsUri => "translations-uri",
            Field::Unknown => "",
        }
    }

    /// The names of the known fields, in order.
    pub fn fields() -> (res: Vec<&'static str>)
        ensures
            res@.map_values(|s: &str| s@) == seq![
                "default"@,
                "locales"@,
                "namespaces"@,
                "locales-dir"@,
                "translations-uri"@,
            ],
    {
        let v = vec!["default", "locales", "namespaces", "locales-dir", "translations-uri"];
        assert(v@.map_values(|s: &str| s@) =~= seq![
            "default"@,
            "locales"@,
            "namespaces"@,
            "locales-dir"@,
            "translations-uri"@,
        ]);
        v
    }
}

/// Reading a known field's name gives the field back.
pub proof fn law_field_name_round_trip(f: Field)
    requires
        f != Field::Unknown,
    ensures
        spec_field(spec_field_name(f)) == f,
{
    reveal_strlit("default");
    reveal_strlit("locales");
    reveal_strlit("namespaces");
    reveal_strlit("locales-dir");
    reveal_strlit("translations-uri");
    assert("default"@.len() == 7);
    assert("locales"@.len() == 7);
    assert("namespaces"@.len() == 10);
    assert("locales-dir"@.len() == 11);
    assert("translations-uri"@.len() == 16);
    assert("default"@[0] != "locales"@[0]);
}

/// The configuration of the translations.
#[derive(Debug, PartialEq)]
pub struct ConfigFile {
    pub default: Key,
    pub locales: Vec<Key>,
    pub name_spaces: Option<Vec<Key>>,
    pub locales_dir: String,
    pub translations_uri: Option<String>,
}

pub struct ConfigFileV {
    pub default: Seq<char>,
    pub locales: Seq<Seq<char>>,
    pub name_spaces: Option<Seq<Seq<char>>>,
    pub locales_dir: Seq<char>,
    pub translations_uri: Option<Seq<char>>,
}

pub open spec fn names(k: Seq<Key>) -> Seq<Seq<char>> {
    k.map_values(|x: Key| x@)
}

impl View for ConfigFile {
    type V = ConfigFileV;

    open spec fn view(&self) -> ConfigFileV {
        ConfigFileV {
            default: self.default@,
            locales: names(self.locales@),
            name_spaces: match self.name_spaces {
                Some(n) => Some(names(n@)),
                None => None,
            },
            locales_dir: self.locales_dir@,
            translations_uri: match self.translations_uri {
                Some(t) => Some(t@),
                None => None,
            },
        }
    }
}

/// A field of the table as read, with its value.
#[derive(Debug, PartialEq)]
pub enum ConfigEntry {
    Default(Key),
    Locales(Vec<Key>),
    Namespaces(Vec<Key>),
    LocalesDir(String),
    TranslationsUri(String),
    Unknown,
}

pub enum ConfigEntryV {
    Default(Seq<char>),
    Locales(Seq<Seq<char>>),
    Namespaces(Seq<Seq<char>>),
    LocalesDir(Seq<char>),
    TranslationsUri(Seq<char>),
    Unknown,
}

impl View for ConfigEntry {
    type V = ConfigEntryV;

    open spec fn view(&self) -> ConfigEntryV {
        match self {
            ConfigEntry::Default(k) => ConfigEntryV::Default(k@),
            ConfigEntry::Locales(v) => ConfigEntryV::Locales(names(v@)),
            ConfigEntry::Namespaces(v) => ConfigEntryV::Namespaces(names(v@)),
            ConfigEntry::LocalesDir(s) => ConfigEntryV::LocalesDir(s@),
            ConfigEntry::TranslationsUri(s) => ConfigEntryV::TranslationsUri(s@),
            ConfigEntry::Unknown => ConfigEntryV::Unknown,
        }
    }
}

/// Why a table read field by field is refused: a field given twice, or a
/// required field absent.
#[derive(Debug, Clone, Copy, PartialEq, Eq, Structural)]
pub enum ConfigFieldError {
    Duplicate(Field),
    Missing(Field),
}

/// The fields read so far.
pub struct PartialConfig {
    pub default: Option<Seq<char>>,
    pub locales: Option<Seq<Seq<char>>>,
    pub name_spaces: Option<Seq<Seq<char>>>,
    pub locales_dir: Option<Seq<char>>,
    pub translations_uri: Option<Seq<char>>,
}

/// The fields read from `entries`, in order; the first field given twice
/// fails it. Unknown fields are skipped.
pub open spec fn read_fields(entries: Seq<ConfigEntryV>) -> Result<PartialConfig, Field>
    decreases entries.len(),
{
    if entries.len() == 0 {
        Ok(PartialConfig { default: None, locales: None, name_spaces: None, locales_dir: None, translations_uri: None })
    } else {
        match read_fields(entries.drop_last()) {
            Err(f) => Err(f),
            Ok(p) => match entries.last() {
                ConfigEntryV::Default(k) => if p.default is Some {
                    Err(Field::Default)
                } else {
                    Ok(PartialConfig { default: Some(k), ..p })
                },
                ConfigEntryV::Locales(v) => if p.locales is Some {
                    Err(Field::Locales)
                } else {
                    Ok(PartialConfig { locales: Some(v), ..p })
                },
                ConfigEntryV::Namespaces(v) => if p.name_spaces is Some {
                    Err(Field::Namespaces)
                } else {
                    Ok(PartialConfig { name_spaces: Some(v), ..p })
                },
                ConfigEntryV::LocalesDir(s) => if p.locales_dir is Some {
                    Err(Field::LocalesDir)
                } else {
                    Ok(PartialConfig { locales_dir: Some(s), ..p })
                },
                ConfigEntryV::TranslationsUri(s) => if p.translations_uri is Some {
                    Err(Field::TranslationsUri)
                } else {
                    Ok(PartialConfig { translations_uri: Some(s), ..p })
                },
                ConfigEntryV::Unknown => Ok(p),
            },
        }
    }
}

/// The configuration a table gives: `default` and `locales` are required,
/// the locales directory is `locales` unless given.
pub open spec fn spec_read_config(entries: Seq<ConfigEntryV>) -> Result<ConfigFileV, ConfigFieldError> {
    match read_fields(entries) {
        Err(f) => Err(ConfigFieldError::Duplicate(f)),
        Ok(p) => match p.default {
            None => Err(ConfigFieldError::Missing(Field::Default)),
            Some(d) => match p.locales {
                None => Err(ConfigFieldError::Missing(Field::Locales)),
                Some(l) => Ok(
                    ConfigFileV {
                        default: d,
                        locales: l,
                        name_spaces: p.name_spaces,
                        locales_dir: match p.locales_dir {
                            Some(x) => x,
                            None => "locales"@,
                        },
                        translations_uri: p.translations_uri,
                    },
                ),
            },
        },
    }
}

/// A copy of a list of keys.
pub fn copy_keys(v: &Vec<Key>) -> (res: Vec<Key>)
    ensures
        res@ == v@,
{
    let mut out: Vec<Key> = Vec::new();
    let mut i: usize = 0;
    while i < v.len()
        invariant
            i <= v@.len(),
            out@ == v@.take(i as int),
        decreases v@.len() - i,
    {
        out.push(v[i].copy());
        assert(v@.take(i + 1) =~= v@.take(i as int).push(v@[i as int]));
        i = i + 1;
    }
    assert(v@.take(i as int) =~= v@);
    out
}

/// The configuration that the fields of a table give, in the order they
/// were read (see `spec_read_config`).
pub fn read_config(entries: &Vec<ConfigEntry>) -> (res: Result<ConfigFile, ConfigFieldError>)
    ensures
        match (res, spec_read_config(entries@.map_values(|e: ConfigEntry| e@))) {
            (Ok(a), Ok(b)) => a@ == b,
            (Err(a), Err(b)) => a == b,
            _ => false,
        },
{
    let ghost ev = entries@.map_values(|e: ConfigEntry| e@);
    let mut default: Option<Key> = None;
    let mut locales: Option<Vec<Key>> = None;
    let mut name_spaces: Option<Vec<Key>> = None;
    let mut locales_dir: Option<String> = None;
    let mut translations_uri: Option<String> = None;
    let mut i: usize = 0;
    assert(ev.take(0) =~= Seq::<ConfigEntryV>::empty());
    while i < entries.len()
        invariant
            i <= entries@.len(),
            ev == entries@.map_values(|e: ConfigEntry| e@),
            read_fields(ev.take(i as int)) == Ok::<PartialConfig, Field>(
                PartialConfig {
                    default: match default {
                        Some(k) => Some(k@),
                        None => None,
                    },
                    locales: match locales {
                        Some(v) => Some(names(v@)),
                        None => None,
                    },
                    name_spaces: match name_spaces {
                        Some(v) => Some(names(v@)),
                        None => None,
                    },
                    locales_dir: match locales_dir {
                        Some(s) => Some(s@),
                        None => None,
                    },
                    translations_uri: match translations_uri {
                        Some(s) => Some(s@),
                        None => None,
                    },
                },
            ),
        decreases entries@.len() - i,
    {
        proof {
            assert(ev.take(i + 1).drop_last() =~= ev.take(i as int));
            assert(ev.take(i + 1).last() == entries@[i as int]@);
        }
        match &entries[i] {
            ConfigEntry::Default(k) => {
                if default.is_some() {
                    proof {
                        lemma_read_fields_err(ev, i as int + 1);
                    }
                    return Err(ConfigFieldError::Duplicate(Field::Default));
                }
                default = Some(k.copy());
            },
            ConfigEntry::Locales(v) => {
                if locales.is_some() {
                    proof {
                        lemma_read_fields_err(ev, i as int + 1);
                    }
                    return Err(ConfigFieldError::Duplicate(Field::Locales));
                }
                locales = Some(copy_keys(v));
            },
            ConfigEntry::Namespaces(v) => {
                if name_spaces.is_some() {
                    proof {
                        lemma_read_fields_err(ev, i as int + 1);
                    }
                    return Err(ConfigFieldError::Duplicate(Field::Namespaces));
                }
                name_spaces = Some(copy_keys(v));
            },
            ConfigEntry::LocalesDir(s) => {
                if locales_dir.is_some() {
                    proof {
                        lemma_read_fields_err(ev, i as int + 1);
                    }
                    return Err(ConfigFieldError::Duplicate(Field::LocalesDir));
                }
                locales_dir = Some(to_owned(s.as_str()));
            },
            ConfigEntry::TranslationsUri(s) => {
                if translations_uri.is_some() {
                    proof {
                        lemma_read_fields_err(ev, i as int + 1);
                    }
                    return Err(ConfigFieldError::Duplicate(Field::TranslationsUri));
                }
                translations_uri = Some(to_owned(s.as_str()));
            },
            ConfigEntry::Unknown => {},
        }
        i = i + 1;
    }
    assert(ev.take(i as int) =~= ev);
    let default = match default {
        Some(d) => d,
        None => return Err(ConfigFieldError::Missing(Field::Default)),
    };
    let locales = match locales {
        Some(l) => l,
        None => return Err(ConfigFieldError::Missing(Field::Locales)),
    };
    let locales_dir = match locales_dir {
        Some(d) => d,
        None => {
            proof {
                reveal_strlit("locales");
            }
            to_owned("locales")
        },
    };
    Ok(ConfigFile { default, locales, name_spaces, locales_dir, translations_uri })
}

proof fn lemma_read_fields_err(ev: Seq<ConfigEntryV>, k: int)
    requires
        1 <= k <= ev.len(),
        read_fields(ev.take(k)) is Err,
    ensures
        read_fields(ev) == read_fields(ev.take(k)),
    decreases ev.len() - k,
{
    if k < ev.len() {
        assert(ev.take(k + 1).drop_last() =~= ev.take(k));
        lemma_read_fields_err(ev, k + 1);
    } else {
        assert(ev.take(k) =~= ev);
    }
}

/// The names that occur more than once in `ks`, each once, sorted; `None`
/// when there is none.
pub open spec fn spec_duplicates(ks: Seq<Seq<char>>) -> Option<Seq<(Seq<char>, ())>>
    decreases ks.len(),
{
    if ks.len() == 0 {
        None
    } else {
        let d = spec_duplicates(ks.drop_last());
        if ks.drop_last().contains(ks.last()) {
            Some(
                map_put(
                    match d {
                        Some(x) => x,
                        None => Seq::empty(),
                    },
                    ks.last(),
                    (),
                ),
            )
        } else {
            d
        }
    }
}

pub open spec fn unit_set_view(s: Seq<(Key, ())>) -> Seq<(Seq<char>, ())> {
    s.map_values(|p: (Key, ())| (p.0@, ()))
}

fn unit_set_insert(s: &mut Vec<(Key, ())>, key: &Key)
    ensures
        unit_set_view(final(s)@) == map_put(unit_set_view(old(s)@), key@, ()),
{
    let (i, found) = find_slot(s, key.name.as_str());
    let ghost m = unit_set_view(s@);
    proof {
        assert(s@.map_values(|p: (Key, ())| p.0@) =~= keys_of(m));
        lemma_slot(m, key@, (), i as int, found);
    }
    if found {
        assert(m.update(i as int, (key@, ())) =~= m);
    } else {
        s.insert(i, (key.copy(), ()));
        assert(unit_set_view(s@) =~= m.insert(i as int, (key@, ())));
    }
}

/// The keys that occur more than once (see `spec_duplicates`).
pub fn contain_duplicates(keys: &Vec<Key>) -> (res: Option<Vec<(Key, ())>>)
    ensures
        match (res, spec_duplicates(names(keys@))) {
            (Some(a), Some(b)) => unit_set_view(a@) == b,
            (None, None) => true,
            _ => false,
        },
{
    let ghost kv = names(keys@);
    let mut dups: Option<Vec<(Key, ())>> = None;
    let mut i: usize = 0;
    assert(kv.take(0) =~= Seq::<Seq<char>>::empty());
    while i < keys.len()
        invariant
            i <= keys@.len(),
            kv == names(keys@),
            kv.len() == keys@.len(),
            match (dups, spec_duplicates(kv.take(i as int))) {
                (Some(a), Some(b)) => unit_set_view(a@) == b,
                (None, None) => true,
                _ => false,
            },
        decreases keys@.len() - i,
    {
        let mut seen = false;
        let mut j: usize = 0;
        while j < i
            invariant
                j <= i < keys@.len(),
                kv == names(keys@),
                kv.len() == keys@.len(),
                seen == (exists|m: int| 0 <= m < j && kv[m] == kv[i as int]),
            decreases i - j,
        {
            if str_eq(keys[j].name.as_str(), keys[i].name.as_str()) {
                assert(kv[j as int] == kv[i as int]);
                seen = true;
            }
            j = j + 1;
        }
        proof {
            let pre = kv.take(i as int);
            assert(kv.take(i + 1).drop_last() =~= pre);
            assert(kv.take(i + 1).last() == kv[i as int]);
            if seen {
                let m = choose|m: int| 0 <= m < i && kv[m] == kv[i as int];
                assert(pre[m] == kv[i as int]);
            } else {
                assert forall|m: int| 0 <= m < pre.len() implies pre[m] != kv[i as int] by {
                    assert(pre[m] == kv[m]);
                }
            }
        }
        if seen {
            let mut d = match dups {
                Some(d) => d,
                None => {
                    let e: Vec<(Key, ())> = Vec::new();
                    assert(unit_set_view(e@) =~= Seq::<(Seq<char>, ())>::empty());
                    e
                },
            };
            unit_set_insert(&mut d, &keys[i]);
            dups = Some(d);
        }
        i = i + 1;
    }
    assert(kv.take(i as int) =~= kv);
    dups
}

/// `s` with the entries at `i` and `j` exchanged.
pub open spec fn swap_spec<T>(s: Seq<T>, i: int, j: int) -> Seq<T> {
    s.update(i, s[j]).update(j, s[i])
}

pub open spec fn first_index_of(s: Seq<Seq<char>>, x: Seq<char>, i: int) -> Option<int>
    decreases s.len() - i,
{
    if i < 0 || i >= s.len() {
        None
    } else if s[i] == x {
        Some(i)
    } else {
        first_index_of(s, x, i + 1)
    }
}

/// The locales with the default one first: swapped with the first locale
/// where it is listed, else appended and then swapped with the first.
pub open spec fn default_first(ls: Seq<Seq<char>>, d: Seq<char>) -> Seq<Seq<char>> {
    match first_index_of(ls, d, 0) {
        Some(i) => swap_spec(ls, 0, i),
        None => swap_spec(ls.push(d), 0, ls.len() as int),
    }
}

/// What `finish_config` makes of a configuration: the default locale put
/// first, then refused when a locale, or else a namespace, is listed twice.
pub open spec fn spec_finish_config(c: ConfigFileV) -> Result<ConfigFileV, crate::error::ErrV> {
    let ls = default_first(c.locales, c.default);
    match spec_duplicates(ls) {
        Some(d) => Err(crate::error::ErrV::DuplicateLocalesInConfig(keys_of(d))),
        None => match c.name_spaces {
            Some(ns) => match spec_duplicates(ns) {
                Some(d) => Err(crate::error::ErrV::DuplicateNamespacesInConfig(keys_of(d))),
                None => Ok(ConfigFileV { locales: ls, ..c }),
            },
            None => Ok(ConfigFileV { locales: ls, ..c }),
        },
    }
}

fn swap_keys(v: &mut Vec<Key>, i: usize, j: usize)
    requires
        i < old(v)@.len(),
        j < old(v)@.len(),
    ensures
        final(v)@ == swap_spec(old(v)@, i as int, j as int),
{
    let a = v[i].copy();
    let b = v[j].copy();
    v.set(i, b);
    v.set(j, a);
}

fn unit_set_keys(d: Vec<(Key, ())>) -> (res: Vec<Key>)
    ensures
        names(res@) == keys_of(unit_set_view(d@)),
{
    let mut out: Vec<Key> = Vec::new();
    let mut i: usize = 0;
    while i < d.len()
        invariant
            i <= d@.len(),
            names(out@) == keys_of(unit_set_view(d@)).take(i as int),
        decreases d@.len() - i,
    {
        let ghost before = out@;
        out.push(d[i].0.copy());
        assert(names(out@) =~= names(before).push(d@[i as int].0@));
        assert(keys_of(unit_set_view(d@)).take(i + 1) =~= keys_of(unit_set_view(d@)).take(i as int).push(
            d@[i as int].0@,
        ));
        i = i + 1;
    }
    assert(keys_of(unit_set_view(d@)).take(i as int) =~= keys_of(unit_set_view(d@)));
    out
}

/// Puts the default locale first and refuses duplicated locales or
/// namespaces (see `spec_finish_config`).
pub fn finish_config(cfg: ConfigFile) -> (res: Result<ConfigFile, Error>)
    ensures
        match (res, spec_finish_config(cfg@)) {
            (Ok(a), Ok(b)) => a@ == b,
            (Err(a), Err(b)) => a@ == b,
            _ => false,
        },
{
    let ghost c = cfg@;
    let ConfigFile { default, mut locales, name_spaces, locales_dir, translations_uri } = cfg;
    let ghost lv = names(locales@);
    let mut idx: Option<usize> = None;
    let mut i: usize = 0;
    while i < locales.len()
        invariant
            i <= locales@.len(),
            lv == names(locales@),
            idx is None ==> first_index_of(lv, default@, 0) == first_index_of(lv, default@, i as int),
            idx matches Some(x) ==> first_index_of(lv, default@, 0) == Some(x as int) && x < locales@.len(),
        decreases locales@.len() - i,
    {
        if idx.is_none() && str_eq(locales[i].name.as_str(), default.name.as_str()) {
            assert(lv[i as int] == default@);
            idx = Some(i);
        }
        i = i + 1;
    }
    match idx {
        Some(x) => {
            swap_keys(&mut locales, 0, x);
            assert(names(locales@) =~= swap_spec(lv, 0, x as int));
        },
        None => {
            let len = locales.len();
            locales.push(default.copy());
            assert(names(locales@) =~= lv.push(default@));
            swap_keys(&mut locales, 0, len);
            assert(names(locales@) =~= swap_spec(lv.push(default@), 0, len as int));
        },
    }
    match contain_duplicates(&locales) {
        Some(d) => return Err(Error::DuplicateLocalesInConfig(unit_set_keys(d))),
        None => {},
    }
    match &name_spaces {
        Some(ns) => match contain_duplicates(ns) {
            Some(d) => return Err(Error::DuplicateNamespacesInConfig(unit_set_keys(d))),
            None => {},
        },
        None => {},
    }
    Ok(ConfigFile { default, locales, name_spaces, locales_dir, translations_uri })
}

/// The line breaks of `s`, one for each.
pub open spec fn newlines_of(s: Seq<char>) -> Seq<char>
    decreases s.len(),
{
    if s.len() == 0 {
        Seq::empty()
    } else if s.last() == '\n' {
        newlines_of(s.drop_last()).push('\n')
    } else {
        newlines_of(s.drop_last())
    }
}

/// The configuration section of a manifest: the text after the
/// `[package.metadata.leptos-i18n]` header, preceded by one line break per
/// line before it (so that positions in it keep their line numbers);
/// `None` when the manifest has no such section.
pub open spec fn spec_config_section(manifest: Seq<char>) -> Option<Seq<char>> {
    match crate::text::spec_split_once(manifest, "[package.metadata.leptos-i18n]"@) {
        Some((before, after)) => Some(newlines_of(before) + after),
        None => None,
    }
}

/// The configuration section of a manifest (see `spec_config_section`).
pub fn config_section(manifest: &str) -> (res: Option<String>)
    ensures
        match res {
            Some(s) => spec_config_section(manifest@) == Some(s@),
            None => spec_config_section(manifest@) is None,
        },
{
    let (before, after) = match split_once(manifest, "[package.metadata.leptos-i18n]") {
        Some(p) => p,
        None => return None,
    };
    let mut out = String::new();
    let n = before.unicode_len();
    let mut i: usize = 0;
    proof {
        reveal_strlit("\n");
    }
    assert(newlines_of(before@.take(0)) =~= Seq::<char>::empty());
    while i < n
        invariant
            n == before@.len(),
            i <= n,
            out@ == newlines_of(before@.take(i as int)),
        decreases n - i,
    {
        let c = before.get_char(i);
        proof {
            assert(before@.take(i + 1).drop_last() =~= before@.take(i as int));
            assert(before@.take(i + 1).last() == c);
            reveal_strlit("\n");
            assert("\n"@ =~= seq!['\n']);
        }
        if c == '\n' {
            out.append("\n");
        }
        i = i + 1;
    }
    assert(before@.take(n as int) =~= before@);
    out.append(after);
    Some(out)
}

proof fn lemma_first_index_of(s: Seq<Seq<char>>, x: Seq<char>, i: int)
    ensures
        first_index_of(s, x, i) matches Some(j) ==> 0 <= i <= j < s.len() && s[j] == x,
        first_index_of(s, x, i) is None ==> forall|j: int| 0 <= i <= j < s.len() ==> s[j] != x,
    decreases s.len() - i,
{
    if 0 <= i < s.len() && s[i] != x {
        lemma_first_index_of(s, x, i + 1);
    }
}

proof fn lemma_no_duplicates(ks: Seq<Seq<char>>)
    requires
        spec_duplicates(ks) is None,
    ensures
        forall|i: int, j: int| 0 <= i < j < ks.len() ==> ks[i] != ks[j],
    decreases ks.len(),
{
    if ks.len() > 0 {
        let pre = ks.drop_last();
        if pre.contains(ks.last()) {
        } else {
            lemma_no_duplicates(pre);
            assert forall|i: int, j: int| 0 <= i < j < ks.len() implies ks[i] != ks[j] by {
                if j == ks.len() - 1 {
                    assert(pre[i] == ks[i]);
                } else {
                    assert(pre[i] == ks[i] && pre[j] == ks[j]);
                }
            }
        }
    }
}

/// A configuration that passes the checks lists the default locale first,
/// and lists no locale twice.
pub proof fn law_checked_config_default_first_no_duplicates(c: ConfigFileV)
    ensures
        spec_finish_config(c) matches Ok(r) ==> {
            &&& r.locales.len() > 0
            &&& r.locales[0] == c.default
            &&& forall|i: int, j: int| 0 <= i < j < r.locales.len() ==> r.locales[i] != r.locales[j]
        },
{
    lemma_first_index_of(c.locales, c.default, 0);
    let ls = default_first(c.locales, c.default);
    if spec_duplicates(ls) is None {
        lemma_no_duplicates(ls);
    }
}

/// The field an entry gives.
pub open spec fn entry_field(e: ConfigEntryV) -> Field {
    match e {
        ConfigEntryV::Default(_) => Field::Default,
        ConfigEntryV::Locales(_) => Field::Locales,
        ConfigEntryV::Namespaces(_) => Field::Namespaces,
        ConfigEntryV::LocalesDir(_) => Field::LocalesDir,
        ConfigEntryV::TranslationsUri(_) => Field::TranslationsUri,
        ConfigEntryV::Unknown => Field::Unknown,
    }
}

/// No field is given by two entries.
pub open spec fn no_repeated_field(es: Seq<ConfigEntryV>) -> bool {
    forall|i: int, j: int|
        0 <= i < j < es.len() ==> entry_field(#[trigger] es[i]) == Field::Unknown || entry_field(es[i])
            != entry_field(#[trigger] es[j])
}

/// The entry that the fields read so far hold for field `f`.
pub open spec fn entry_of(p: PartialConfig, f: Field) -> Option<ConfigEntryV> {
    match f {
        Field::Default => match p.default {
            Some(d) => Some(ConfigEntryV::Default(d)),
            None => None,
        },
        Field::Locales => match p.locales {
            Some(l) => Some(ConfigEntryV::Locales(l)),
            None => None,
        },
        Field::Namespaces => match p.name_spaces {
            Some(v) => Some(ConfigEntryV::Namespaces(v)),
            None => None,
        },
        Field::LocalesDir => match p.locales_dir {
            Some(s) => Some(ConfigEntryV::LocalesDir(s)),
            None => None,
        },
        Field::TranslationsUri => match p.translations_uri {
            Some(s) => Some(ConfigEntryV::TranslationsUri(s)),
            None => None,
        },
        Field::Unknown => None,
    }
}

/// Once read, a field stays read.
proof fn lemma_read_fields_keeps(es: Seq<ConfigEntryV>)
    ensures
        read_fields(es) matches Ok(p) ==> forall|i: int|
            0 <= i < es.len() && entry_field(#[trigger] es[i]) != Field::Unknown ==> entry_of(p, entry_field(es[i])) is Some,
    decreases es.len(),
{
    if es.len() > 0 {
        let init = es.drop_last();
        lemma_read_fields_keeps(init);
        if let Ok(p) = read_fields(es) {
            assert forall|i: int|
                0 <= i < es.len() && entry_field(#[trigger] es[i]) != Field::Unknown implies entry_of(
                p,
                entry_field(es[i]),
            ) is Some by {
                if i < es.len() - 1 {
                    assert(es[i] == init[i]);
                }
            }
        }
    }
}

/// Without repeated fields, reading succeeds and holds each entry given,
/// and nothing for a field no entry gives.
proof fn lemma_read_fields_given(es: Seq<ConfigEntryV>)
    requires
        no_repeated_field(es),
    ensures
        read_fields(es) is Ok,
        forall|i: int|
            0 <= i < es.len() && entry_field(#[trigger] es[i]) != Field::Unknown ==> entry_of(
                read_fields(es)->Ok_0,
                entry_field(es[i]),
            ) == Some(es[i]),
        forall|f: Field|
            (forall|i: int| 0 <= i < es.len() ==> entry_field(#[trigger] es[i]) != f) ==> #[trigger] entry_of(
                read_fields(es)->Ok_0,
                f,
            ) is None,
    decreases es.len(),
{
    if es.len() > 0 {
        let init = es.drop_last();
        let e = es.last();
        assert(no_repeated_field(init)) by {
            assert forall|i: int, j: int| 0 <= i < j < init.len() implies entry_field(#[trigger] init[i])
                == Field::Unknown || entry_field(init[i]) != entry_field(#[trigger] init[j]) by {
                assert(init[i] == es[i] && init[j] == es[j]);
            }
        }
        lemma_read_fields_given(init);
        let p = read_fields(init)->Ok_0;
        if entry_field(e) != Field::Unknown {
            assert forall|i: int| 0 <= i < init.len() implies entry_field(#[trigger] init[i]) != entry_field(e) by {
                assert(init[i] == es[i]);
                assert(es[es.len() - 1] == e);
            }
            assert(entry_of(p, entry_field(e)) is None);
        }
        let q = read_fields(es)->Ok_0;
        assert(read_fields(es) is Ok);
        assert forall|i: int|
            0 <= i < es.len() && entry_field(#[trigger] es[i]) != Field::Unknown implies entry_of(
            q,
            entry_field(es[i]),
        ) == Some(es[i]) by {
            if i < es.len() - 1 {
                assert(es[i] == init[i]);
                assert(es[es.len() - 1] == e);
                assert(entry_field(init[i]) != entry_field(e));
            }
        }
        assert forall|f: Field|
            (forall|i: int| 0 <= i < es.len() ==> entry_field(#[trigger] es[i]) != f) implies #[trigger] entry_of(
            q,
            f,
        ) is None by {
            assert forall|i: int| 0 <= i < init.len() implies entry_field(#[trigger] init[i]) != f by {
                assert(init[i] == es[i]);
            }
            assert(entry_field(es[es.len() - 1]) != f);
            assert(entry_of(p, f) is None);
            assert(entry_field(e) != f);
            match e {
                ConfigEntryV::Default(d) => assert(q == PartialConfig { default: Some(d), ..p }),
                ConfigEntryV::Locales(l) => assert(q == PartialConfig { locales: Some(l), ..p }),
                ConfigEntryV::Namespaces(v) => assert(q == PartialConfig { name_spaces: Some(v), ..p }),
                ConfigEntryV::LocalesDir(x) => assert(q == PartialConfig { locales_dir: Some(x), ..p }),
                ConfigEntryV::TranslationsUri(x) => assert(q == PartialConfig { translations_uri: Some(x), ..p }),
                ConfigEntryV::Unknown => assert(q == p),
            }
        }
    }
}

/// A field given twice fails the reading.
proof fn lemma_read_fields_repeat(es: Seq<ConfigEntryV>, i: int, j: int)
    requires
        0 <= i < j < es.len(),
        entry_field(es[i]) != Field::Unknown,
        entry_field(es[i]) == entry_field(es[j]),
    ensures
        read_fields(es) is Err,
    decreases es.len(),
{
    let init = es.drop_last();
    if j < es.len() - 1 {
        assert(init[i] == es[i] && init[j] == es[j]);
        lemma_read_fields_repeat(init, i, j);
    } else {
        lemma_read_fields_keeps(init);
        assert(init[i] == es[i]);
    }
}

/// A field read comes from an entry that gives it.
proof fn lemma_read_fields_source(es: Seq<ConfigEntryV>, f: Field)
    ensures
        read_fields(es) matches Ok(p) ==> (entry_of(p, f) is Some ==> exists|i: int|
            0 <= i < es.len() && entry_field(#[trigger] es[i]) == f),
    decreases es.len(),
{
    if es.len() > 0 {
        let init = es.drop_last();
        lemma_read_fields_source(init, f);
        if let Ok(q) = read_fields(es) {
            let p = read_fields(init)->Ok_0;
            if entry_of(q, f) is Some {
                if entry_field(es.last()) == f {
                    assert(entry_field(es[es.len() - 1]) == f);
                } else {
                    match es.last() {
                        ConfigEntryV::Default(d) => assert(q == PartialConfig { default: Some(d), ..p }),
                        ConfigEntryV::Locales(l) => assert(q == PartialConfig { locales: Some(l), ..p }),
                        ConfigEntryV::Namespaces(v) => assert(q == PartialConfig { name_spaces: Some(v), ..p }),
                        ConfigEntryV::LocalesDir(x) => assert(q == PartialConfig { locales_dir: Some(x), ..p }),
                        ConfigEntryV::TranslationsUri(x) => assert(q == PartialConfig { translations_uri: Some(x), ..p }),
                        ConfigEntryV::Unknown => assert(q == p),
                    }
                    assert(entry_of(p, f) is Some);
                    let i = choose|i: int| 0 <= i < init.len() && entry_field(#[trigger] init[i]) == f;
                    assert(es[i] == init[i]);
                }
            }
        }
    }
}

/// A duplicate reported is a field given by two entries.
proof fn lemma_read_fields_dup(es: Seq<ConfigEntryV>)
    ensures
        read_fields(es) matches Err(f) ==> f != Field::Unknown && exists|i: int, j: int|
            0 <= i < j < es.len() && entry_field(#[trigger] es[i]) == f && entry_field(#[trigger] es[j]) == f,
    decreases es.len(),
{
    if es.len() > 0 {
        let init = es.drop_last();
        lemma_read_fields_dup(init);
        if let Err(f) = read_fields(es) {
            if let Err(g) = read_fields(init) {
                let (i, j) = choose|i: int, j: int|
                    0 <= i < j < init.len() && entry_field(#[trigger] init[i]) == g && entry_field(#[trigger] init[j]) == g;
                assert(es[i] == init[i] && es[j] == init[j]);
            } else {
                let p = read_fields(init)->Ok_0;
                assert(entry_field(es.last()) == f);
                assert(entry_of(p, f) is Some);
                lemma_read_fields_source(init, f);
                let i = choose|i: int| 0 <= i < init.len() && entry_field(#[trigger] init[i]) == f;
                assert(es[i] == init[i]);
                assert(entry_field(es[es.len() - 1]) == f);
            }
        }
    }
}

/// Reading the configuration table takes each field from the entry that
/// gives it: `default`, `locales` and `namespaces` as given, the locales
/// directory as given or `locales`, the translations URI as given or none,
/// and no namespaces when no entry gives them. It succeeds exactly when
/// `default` and `locales` are given and no field is given twice; a field
/// given twice is reported as a duplicate (and only such a field), a
/// missing `default` before a missing `locales`.
pub proof fn law_read_config_takes_given_fields(es: Seq<ConfigEntryV>)
    ensures
        spec_read_config(es) is Ok <==> no_repeated_field(es) && (exists|i: int|
            0 <= i < es.len() && #[trigger] es[i] is Default) && (exists|i: int|
            0 <= i < es.len() && #[trigger] es[i] is Locales),
        !no_repeated_field(es) ==> spec_read_config(es) matches Err(ConfigFieldError::Duplicate(_)),
        spec_read_config(es) matches Err(ConfigFieldError::Duplicate(f)) ==> f != Field::Unknown && exists|i: int, j: int|
            0 <= i < j < es.len() && entry_field(#[trigger] es[i]) == f && entry_field(#[trigger] es[j]) == f,
        no_repeated_field(es) && !(exists|i: int| 0 <= i < es.len() && #[trigger] es[i] is Default)
            ==> spec_read_config(es) == Err::<ConfigFileV, ConfigFieldError>(ConfigFieldError::Missing(Field::Default)),
        no_repeated_field(es) && (exists|i: int| 0 <= i < es.len() && #[trigger] es[i] is Default) && !(exists|i: int|
            0 <= i < es.len() && #[trigger] es[i] is Locales) ==> spec_read_config(es) == Err::<
            ConfigFileV,
            ConfigFieldError,
        >(ConfigFieldError::Missing(Field::Locales)),
        spec_read_config(es) matches Ok(c) ==> forall|i: int|
            0 <= i < es.len() ==> match #[trigger] es[i] {
                ConfigEntryV::Default(d) => c.default == d,
                ConfigEntryV::Locales(l) => c.locales == l,
                ConfigEntryV::Namespaces(v) => c.name_spaces == Some(v),
                ConfigEntryV::LocalesDir(s) => c.locales_dir == s,
                ConfigEntryV::TranslationsUri(s) => c.translations_uri == Some(s),
                ConfigEntryV::Unknown => true,
            },
        spec_read_config(es) matches Ok(c) ==> ((forall|i: int| 0 <= i < es.len() ==> !(#[trigger] es[i] is Namespaces))
            ==> c.name_spaces is None),
        spec_read_config(es) matches Ok(c) ==> ((forall|i: int| 0 <= i < es.len() ==> !(#[trigger] es[i] is LocalesDir))
            ==> c.locales_dir == "locales"@),
        spec_read_config(es) matches Ok(c) ==> ((forall|i: int|
            0 <= i < es.len() ==> !(#[trigger] es[i] is TranslationsUri)) ==> c.translations_uri is None),
{
    lemma_read_fields_dup(es);
    if !no_repeated_field(es) {
        let (i, j) = choose|i: int, j: int|
            0 <= i < j < es.len() && !(entry_field(#[trigger] es[i]) == Field::Unknown || entry_field(es[i])
                != entry_field(#[trigger] es[j]));
        lemma_read_fields_repeat(es, i, j);
    } else {
        lemma_read_fields_given(es);
        let p = read_fields(es)->Ok_0;
        if exists|i: int| 0 <= i < es.len() && #[trigger] es[i] is Default {
            let i = choose|i: int| 0 <= i < es.len() && #[trigger] es[i] is Default;
            assert(entry_of(p, entry_field(es[i])) == Some(es[i]));
        } else {
            assert forall|i: int| 0 <= i < es.len() implies entry_field(#[trigger] es[i]) != Field::Default by {}
            assert(entry_of(p, Field::Default) is None);
        }
        if exists|i: int| 0 <= i < es.len() && #[trigger] es[i] is Locales {
            let i = choose|i: int| 0 <= i < es.len() && #[trigger] es[i] is Locales;
            assert(entry_of(p, entry_field(es[i])) == Some(es[i]));
        } else {
            assert forall|i: int| 0 <= i < es.len() implies entry_field(#[trigger] es[i]) != Field::Locales by {}
            assert(entry_of(p, Field::Locales) is None);
        }
        if spec_read_config(es) is Ok {
            let c = spec_read_config(es)->Ok_0;
            assert forall|i: int| 0 <= i < es.len() implies match #[trigger] es[i] {
                ConfigEntryV::Default(d) => c.default == d,
                ConfigEntryV::Locales(l) => c.locales == l,
                ConfigEntryV::Namespaces(v) => c.name_spaces == Some(v),
                ConfigEntryV::LocalesDir(s) => c.locales_dir == s,
                ConfigEntryV::TranslationsUri(s) => c.translations_uri == Some(s),
                ConfigEntryV::Unknown => true,
            } by {
                if !(es[i] is Unknown) {
                    assert(entry_of(p, entry_field(es[i])) == Some(es[i]));
                }
            }
            if forall|i: int| 0 <= i < es.len() ==> !(#[trigger] es[i] is Namespaces) {
                assert forall|i: int| 0 <= i < es.len() implies entry_field(#[trigger] es[i]) != Field::Namespaces by {}
                assert(entry_of(p, Field::Namespaces) is None);
            }
            if forall|i: int| 0 <= i < es.len() ==> !(#[trigger] es[i] is LocalesDir) {
                assert forall|i: int| 0 <= i < es.len() implies entry_field(#[trigger] es[i]) != Field::LocalesDir by {}
                assert(entry_of(p, Field::LocalesDir) is None);
            }
            if forall|i: int| 0 <= i < es.len() ==> !(#[trigger] es[i] is TranslationsUri) {
                assert forall|i: int| 0 <= i < es.len() implies entry_field(#[trigger] es[i]) != Field::TranslationsUri by {}
                assert(entry_of(p, Field::TranslationsUri) is None);
            }
        }
    }
}

} // verus!
