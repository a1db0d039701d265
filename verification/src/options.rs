//! The options of a translation project built in code: its locales,
//! namespaces, fallbacks and parsing options.

use vstd::prelude::*;
use crate::builders::{find_slot, keys_of, lemma_slot, map_put};
use crate::config::names;
use crate::defaults::pairs_of_keys;
use crate::error::{ErrV, Error};
use crate::formatters::{FormatterKind, Formatters, kind_name, registered};
use crate::key::{Key, spec_key_new};
use crate::text::to_owned;

verus! {

/// The format of the translation files. (Formats read by a parser of the
/// user's own are handled outside the library.)
#[derive(Debug, Clone, Copy, PartialEq, Eq, Structural)]
pub enum FileFormat {
    Json,
    Json5,
    Yaml,
    Toml,
}

/// The file extensions of a format.
pub open spec fn spec_files_exts(f: FileFormat) -> Seq<Seq<char>> {
    match f {
        FileFormat::Json => seq!["json"@],
        FileFormat::Json5 => seq!["json5"@],
        FileFormat::Yaml => seq!["yaml"@, "yml"@],
        FileFormat::Toml => seq!["toml"@],
    }
}

impl FileFormat {
    /// The file extensions of the format.
    pub fn get_files_exts(&self) -> (res: Vec<&'static str>)
        ensures
            res@.map_values(|s: &str| s@) == spec_files_exts(*self),
    {
        let v = match self {
            FileFormat::Json => vec!["json"],
            FileFormat::Json5 => vec!["json5"],
            FileFormat::Yaml => vec!["yaml", "yml"],
            FileFormat::Toml => vec!["toml"],
        };
        assert(v@.map_values(|s: &str| s@) =~= spec_files_exts(*self));
        v
    }
}

/// How the translation files are read.
pub struct ParseOptions {
    pub file_format: FileFormat,
    pub suppress_key_warnings: bool,
    pub interpolate_display: bool,
    pub show_keys_only: bool,
    pub formatters: Formatters,
}

impl ParseOptions {
    /// JSON files, warnings shown, every formatter family known.
    pub fn new() -> (res: ParseOptions)
        ensures
            res.file_format == FileFormat::Json,
            !res.suppress_key_warnings,
            !res.interpolate_display,
            !res.show_keys_only,
            forall|k: FormatterKind| #[trigger] registered(res.formatters.table(), kind_name(k)) == Some(k),
    {
        ParseOptions {
            file_format: FileFormat::Json,
            suppress_key_warnings: false,
            interpolate_display: false,
            show_keys_only: false,
            formatters: Formatters::new(),
        }
    }

    pub fn file_format(self, file_format: FileFormat) -> (res: ParseOptions)
        ensures
            res == (ParseOptions { file_format, ..self }),
    {
        ParseOptions { file_format, ..self }
    }

    pub fn suppress_key_warnings(self, suppress_key_warnings: bool) -> (res: ParseOptions)
        ensures
            res == (ParseOptions { suppress_key_warnings, ..self }),
    {
        ParseOptions { suppress_key_warnings, ..self }
    }

    pub fn interpolate_display(self, interpolate_display: bool) -> (res: ParseOptions)
        ensures
            res == (ParseOptions { interpolate_display, ..self }),
    {
        ParseOptions { interpolate_display, ..self }
    }

    pub fn show_keys_only(self, show_keys_only: bool) -> (res: ParseOptions)
        ensures
            res == (ParseOptions { show_keys_only, ..self }),
    {
        ParseOptions { show_keys_only, ..self }
    }

    /// Registers a formatter family, which must not be known yet.
    pub fn add_formatter(self, kind: FormatterKind) -> (res: ParseOptions)
        requires
            registered(self.formatters.table(), kind_name(kind)) is None,
        ensures
            res.formatters.table() == self.formatters.table().push((kind_name(kind), kind)),
            res.file_format == self.file_format,
            res.suppress_key_warnings == self.suppress_key_warnings,
            res.interpolate_display == self.interpolate_display,
            res.show_keys_only == self.show_keys_only,
    {
        let mut this = self;
        let _ = this.formatters.insert_formatter(kind);
        this
    }
}

impl Default for ParseOptions {
    fn default() -> (res: ParseOptions)
        ensures
            res.file_format == FileFormat::Json,
            !res.suppress_key_warnings,
            !res.interpolate_display,
            !res.show_keys_only,
            forall|k: FormatterKind| #[trigger] registered(res.formatters.table(), kind_name(k)) == Some(k),
    {
        ParseOptions::new()
    }
}

/// The options of a translation project.
pub struct Config {
    pub default_locale: Key,
    pub locales: Vec<Key>,
    pub locales_path: String,
    pub namespaces: Vec<Key>,
    pub translations_uri: Option<String>,
    pub extensions: Vec<(Key, Key)>,
    pub options: ParseOptions,
}

impl Config {
    /// A project whose only locale is the default one, with its files under
    /// `locales`; an error when the name is not a valid key.
    pub fn new(default_locale: &str) -> (res: Result<Config, Error>)
        ensures
            match res {
                Ok(c) => spec_key_new(default_locale@) == Some(c.default_locale@) && names(c.locales@) == seq![
                    c.default_locale@,
                ] && c.locales_path@ == "locales"@ && c.namespaces@.len() == 0 && c.translations_uri is None
                    && c.extensions@.len() == 0 && c.options.file_format == FileFormat::Json
                    && !c.options.suppress_key_warnings,
                Err(e) => spec_key_new(default_locale@) is None && e@ == ErrV::InvalidKey(default_locale@),
            },
    {
        let default_locale = Key::try_new(default_locale)?;
        let locales = vec![default_locale.copy()];
        assert(names(locales@) =~= seq![default_locale@]);
        proof {
            reveal_strlit("locales");
        }
        Ok(
            Config {
                default_locale,
                locales,
                locales_path: to_owned("locales"),
                namespaces: Vec::new(),
                translations_uri: None,
                extensions: Vec::new(),
                options: ParseOptions::new(),
            },
        )
    }

    /// Adds a locale; an error when the name is not a valid key.
    pub fn add_locale(self, locale: &str) -> (res: Result<Config, Error>)
        ensures
            match res {
                Ok(c) => spec_key_new(locale@) matches Some(k) && names(c.locales@) == names(self.locales@).push(k)
                    && c.default_locale == self.default_locale && c.namespaces == self.namespaces
                    && c.extensions == self.extensions && c.locales_path == self.locales_path
                    && c.translations_uri == self.translations_uri,
                Err(e) => spec_key_new(locale@) is None && e@ == ErrV::InvalidKey(locale@),
            },
    {
        let loc = Key::try_new(locale)?;
        let mut this = self;
        let ghost before = this.locales@;
        this.locales.push(loc);
        assert(names(this.locales@) =~= names(before).push(this.locales@.last()@));
        Ok(this)
    }

    /// Adds locales in order; the first invalid name is an error.
    pub fn add_locales(self, locales: &Vec<String>) -> (res: Result<Config, Error>)
        ensures
            match res {
                Ok(c) => forall|i: int| 0 <= i < locales@.len() ==> spec_key_new(#[trigger] locales@[i]@) is Some,
                Err(e) => exists|i: int|
                    0 <= i < locales@.len() && spec_key_new(#[trigger] locales@[i]@) is None && e@ == ErrV::InvalidKey(
                        locales@[i]@,
                    ),
            },
            res matches Ok(c) ==> names(c.locales@) == names(self.locales@) + locales@.map_values(
                |s: String| spec_key_new(s@)->0,
            ),
    {
        let mut this = self;
        let ghost start = names(this.locales@);
        let mut i: usize = 0;
        while i < locales.len()
            invariant
                i <= locales@.len(),
                forall|j: int| 0 <= j < i ==> spec_key_new(#[trigger] locales@[j]@) is Some,
                names(this.locales@) == start + locales@.take(i as int).map_values(|s: String| spec_key_new(s@)->0),
            decreases locales@.len() - i,
        {
            let ghost before = names(this.locales@);
            match this.add_locale(locales[i].as_str()) {
                Ok(c) => {
                    this = c;
                },
                Err(e) => {
                    return Err(e);
                },
            }
            assert(locales@.take(i + 1).map_values(|s: String| spec_key_new(s@)->0) =~= locales@.take(
                i as int,
            ).map_values(|s: String| spec_key_new(s@)->0).push(spec_key_new(locales@[i as int]@)->0));
            i = i + 1;
        }
        assert(locales@.take(i as int) =~= locales@);
        Ok(this)
    }

    /// Sets where the locale files are.
    pub fn locales_path(self, path: String) -> (res: Config)
        ensures
            res == (Config { locales_path: path, ..self }),
    {
        Config { locales_path: path, ..self }
    }

    /// Adds a namespace; an error when the name is not a valid key.
    pub fn add_namespace(self, namespace: &str) -> (res: Result<Config, Error>)
        ensures
            match res {
                Ok(c) => spec_key_new(namespace@) matches Some(k) && names(c.namespaces@) == names(
                    self.namespaces@,
                ).push(k) && c.locales == self.locales && c.default_locale == self.default_locale,
                Err(e) => spec_key_new(namespace@) is None && e@ == ErrV::InvalidKey(namespace@),
            },
    {
        let ns = Key::try_new(namespace)?;
        let mut this = self;
        let ghost before = this.namespaces@;
        this.namespaces.push(ns);
        assert(names(this.namespaces@) =~= names(before).push(this.namespaces@.last()@));
        Ok(this)
    }

    /// Adds namespaces in order; the first invalid name is an error.
    pub fn add_namespaces(self, namespaces: &Vec<String>) -> (res: Result<Config, Error>)
        ensures
            match res {
                Ok(c) => forall|i: int| 0 <= i < namespaces@.len() ==> spec_key_new(#[trigger] namespaces@[i]@) is Some,
                Err(e) => exists|i: int|
                    0 <= i < namespaces@.len() && spec_key_new(#[trigger] namespaces@[i]@) is None && e@
                        == ErrV::InvalidKey(namespaces@[i]@),
            },
            res matches Ok(c) ==> names(c.namespaces@) == names(self.namespaces@) + namespaces@.map_values(
                |s: String| spec_key_new(s@)->0,
            ),
    {
        let mut this = self;
        let ghost start = names(this.namespaces@);
        let mut i: usize = 0;
        while i < namespaces.len()
            invariant
                i <= namespaces@.len(),
                forall|j: int| 0 <= j < i ==> spec_key_new(#[trigger] namespaces@[j]@) is Some,
                names(this.namespaces@) == start + namespaces@.take(i as int).map_values(
                    |s: String| spec_key_new(s@)->0,
                ),
            decreases namespaces@.len() - i,
        {
            match this.add_namespace(namespaces[i].as_str()) {
                Ok(c) => {
                    this = c;
                },
                Err(e) => {
                    return Err(e);
                },
            }
            assert(namespaces@.take(i + 1).map_values(|s: String| spec_key_new(s@)->0) =~= namespaces@.take(
                i as int,
            ).map_values(|s: String| spec_key_new(s@)->0).push(spec_key_new(namespaces@[i as int]@)->0));
            i = i + 1;
        }
        assert(namespaces@.take(i as int) =~= namespaces@);
        Ok(this)
    }

    /// Sets where the translations are served from.
    pub fn translations_uri(self, uri: String) -> (res: Config)
        ensures
            res == (Config { translations_uri: Some(uri), ..self }),
    {
        Config { translations_uri: Some(uri), ..self }
    }

    /// Declares that `locale_to_extend` takes its missing keys from
    /// `inherit_from`, replacing an earlier declaration; an error when
    /// either name is not a valid key (the first one checked first).
    pub fn extend_locale(self, locale_to_extend: &str, inherit_from: &str) -> (res: Result<Config, Error>)
        ensures
            match res {
                Ok(c) => spec_key_new(locale_to_extend@) matches Some(a) && spec_key_new(inherit_from@) matches Some(b)
                    && pairs_of_keys(c.extensions@) == map_put(pairs_of_keys(self.extensions@), a, b)
                    && c.locales == self.locales && c.default_locale == self.default_locale,
                Err(e) => (spec_key_new(locale_to_extend@) is None && e@ == ErrV::InvalidKey(locale_to_extend@)) || (
                spec_key_new(locale_to_extend@) is Some && spec_key_new(inherit_from@) is None && e@
                    == ErrV::InvalidKey(inherit_from@)),
            },
    {
        let a = Key::try_new(locale_to_extend)?;
        let b = Key::try_new(inherit_from)?;
        let mut this = self;
        let (i, found) = find_slot(&this.extensions, a.name.as_str());
        let ghost m0 = pairs_of_keys(this.extensions@);
        proof {
            assert(this.extensions@.map_values(|p: (Key, Key)| p.0@) =~= keys_of(m0));
            lemma_slot(m0, a@, b@, i as int, found);
        }
        let ghost entry = (a@, b@);
        if found {
            let _ = this.extensions.remove(i);
            this.extensions.insert(i, (a, b));
            assert(pairs_of_keys(this.extensions@) =~= m0.update(i as int, entry));
        } else {
            this.extensions.insert(i, (a, b));
            assert(pairs_of_keys(this.extensions@) =~= m0.insert(i as int, entry));
        }
        Ok(this)
    }

    /// Sets the parsing options.
    pub fn parse_options(self, options: ParseOptions) -> (res: Config)
        ensures
            res == (Config { options, ..self }),
    {
        Config { options, ..self }
    }
}

} // verus!
