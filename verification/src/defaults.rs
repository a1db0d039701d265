//! Which locale a locale falls back to for the keys it does not translate:
//! an explicit inheritance, else the locale with the same language (and
//! region) without the finer parts, else the default locale.

use vstd::prelude::*;
use crate::builders::{
    find_slot, keys_of, lemma_map_get_at, lemma_map_put_get_other, lemma_map_put_get_same,
    lemma_map_put_sorted, lemma_slot, lemma_sorted_distinct, lemma_str_less_irrefl, lemma_str_less_trans,
    map_get, map_put, sorted_names,
};
use crate::key::Key;
use crate::text::str_eq;

verus! {

/// The parts of a locale identifier that fallback looks at.
#[derive(Debug, Clone, PartialEq)]
pub struct LocaleId {
    pub language: String,
    pub script: Option<String>,
    pub region: Option<String>,
    pub variants: Vec<String>,
    pub has_extensions: bool,
}

/// View of a locale identifier.
pub struct LocaleIdV {
    pub language: Seq<char>,
    pub script: Option<Seq<char>>,
    pub region: Option<Seq<char>>,
    pub variants: Seq<Seq<char>>,
    pub has_extensions: bool,
}

pub open spec fn opt_string_view(o: Option<String>) -> Option<Seq<char>> {
    match o {
        Some(s) => Some(s@),
        None => None,
    }
}

impl View for LocaleId {
    type V = LocaleIdV;

    open spec fn view(&self) -> LocaleIdV {
        LocaleIdV {
            language: self.language@,
            script: opt_string_view(self.script),
            region: opt_string_view(self.region),
            variants: self.variants@.map_values(|v: String| v@),
            has_extensions: self.has_extensions,
        }
    }
}

/// What `icu_locale::Locale::try_from_str` makes of a name: the identifier
/// it reads, taken apart (its subtags as their canonical text), or the text
/// of the error it returns for a name that is not a valid locale.
pub uninterp spec fn parsed_locale(name: Seq<char>) -> Result<LocaleIdV, Seq<char>>;

/// Calls `icu_locale::Locale::try_from_str` and takes the parsed locale
/// apart into its language, script, region and variant subtags (as
/// `as_str` writes them) and whether it has extensions, or writes its error
/// with `Display`. The contract claims that the outcome is a function of
/// the name.
#[verifier::external_body]
fn parse_locale_id(name: &str) -> (res: Result<LocaleId, String>)
    ensures
        match res {
            Ok(l) => parsed_locale(name@) == Ok::<LocaleIdV, Seq<char>>(l@),
            Err(t) => parsed_locale(name@) == Err::<LocaleIdV, Seq<char>>(t@),
        },
{
    let loc = icu_locale::Locale::try_from_str(name).map_err(|e| format!("{}", e))?;
    Ok(LocaleId {
        language: loc.id.language.as_str().to_string(),
        script: loc.id.script.map(|s| s.as_str().to_string()),
        region: loc.id.region.map(|r| r.as_str().to_string()),
        variants: loc.id.variants.iter().map(|v| v.as_str().to_string()).collect(),
        has_extensions: !loc.extensions.is_empty(),
    })
}

impl LocaleId {
    /// Parses a locale name (see `parsed_locale`).
    pub fn parse(name: &str) -> (res: Result<LocaleId, String>)
        ensures
            match res {
                Ok(l) => parsed_locale(name@) == Ok::<LocaleIdV, Seq<char>>(l@),
                Err(t) => parsed_locale(name@) == Err::<LocaleIdV, Seq<char>>(t@),
            },
    {
        parse_locale_id(name)
    }
}

/// The identifier made of a language and an optional region only.
pub open spec fn bare_id(language: Seq<char>, region: Option<Seq<char>>) -> LocaleIdV {
    LocaleIdV { language, script: None, region, variants: Seq::empty(), has_extensions: false }
}

/// The identifier of the first locale named `key`.
pub open spec fn id_of(locales: Seq<(Seq<char>, LocaleIdV)>, key: Seq<char>) -> Option<LocaleIdV>
    decreases locales.len(),
{
    if locales.len() == 0 {
        None
    } else if locales[0].0 == key {
        Some(locales[0].1)
    } else {
        id_of(locales.drop_first(), key)
    }
}

/// The name of the first locale whose identifier is `target`.
pub open spec fn first_with_id(locales: Seq<(Seq<char>, LocaleIdV)>, target: LocaleIdV) -> Option<Seq<char>>
    decreases locales.len(),
{
    if locales.len() == 0 {
        None
    } else if locales[0].1 == target {
        Some(locales[0].0)
    } else {
        first_with_id(locales.drop_first(), target)
    }
}

/// The locale a locale falls back to when no inheritance is declared: none
/// for a bare language; for a locale with a script, variants or
/// extensions, the first locale with only its language and region; else
/// (or if there is none) the first locale with only its language.
pub open spec fn spec_base_default(locales: Seq<(Seq<char>, LocaleIdV)>, key: Seq<char>) -> Option<Seq<char>> {
    let l = id_of(locales, key)->0;
    let finer = l.has_extensions || l.variants.len() > 0 || l.script is Some;
    if !finer && l.region is None {
        None
    } else {
        let with_region = if finer {
            first_with_id(locales, bare_id(l.language, l.region))
        } else {
            None
        };
        match with_region {
            Some(k) => Some(k),
            None => first_with_id(locales, bare_id(l.language, None)),
        }
    }
}

pub open spec fn locales_view(v: Seq<(Key, LocaleId)>) -> Seq<(Seq<char>, LocaleIdV)> {
    v.map_values(|p: (Key, LocaleId)| (p.0@, p.1@))
}

fn opt_str_eq(a: &Option<String>, b: &Option<String>) -> (res: bool)
    ensures
        res == (opt_string_view(*a) == opt_string_view(*b)),
{
    match (a, b) {
        (Some(x), Some(y)) => str_eq(x.as_str(), y.as_str()),
        (None, None) => true,
        _ => false,
    }
}

/// Whether `id` is the bare identifier of `language` and `region`.
fn is_bare(id: &LocaleId, language: &String, region: &Option<String>) -> (res: bool)
    ensures
        res == (id@ == bare_id(language@, opt_string_view(*region))),
{
    let ghost t = bare_id(language@, opt_string_view(*region));
    if !str_eq(id.language.as_str(), language.as_str()) {
        assert(id@.language != t.language);
        return false;
    }
    if !opt_str_eq(&id.region, region) {
        assert(id@.region != t.region);
        return false;
    }
    if id.script.is_some() {
        assert(id@.script != t.script);
        return false;
    }
    if id.variants.len() != 0 {
        assert(id@.variants.len() != t.variants.len());
        return false;
    }
    if id.has_extensions {
        assert(id@.has_extensions != t.has_extensions);
        return false;
    }
    assert(id@.variants =~= t.variants);
    true
}

fn find_with_id(locales: &Vec<(Key, LocaleId)>, language: &String, region: &Option<String>) -> (res: Option<Key>)
    ensures
        match res {
            Some(k) => first_with_id(locales_view(locales@), bare_id(language@, opt_string_view(*region)))
                == Some(k@),
            None => first_with_id(locales_view(locales@), bare_id(language@, opt_string_view(*region))) is None,
        },
{
    let ghost lv = locales_view(locales@);
    let ghost t = bare_id(language@, opt_string_view(*region));
    let mut i: usize = 0;
    assert(lv.skip(0) =~= lv);
    while i < locales.len()
        invariant
            lv == locales_view(locales@),
            lv.len() == locales@.len(),
            i <= locales@.len(),
            t == bare_id(language@, opt_string_view(*region)),
            first_with_id(lv, t) == first_with_id(lv.skip(i as int), t),
        decreases locales@.len() - i,
    {
        assert(lv.skip(i as int)[0] == (locales@[i as int].0@, locales@[i as int].1@));
        assert(lv.skip(i as int).drop_first() =~= lv.skip(i + 1));
        if is_bare(&locales[i].1, language, region) {
            assert(lv.skip(i as int)[0].1 == t);
            return Some(locales[i].0.copy());
        }
        assert(lv.skip(i as int)[0].1 != t);
        i = i + 1;
    }
    None
}

/// The base locale that `locale` falls back to (see `spec_base_default`);
/// `locale` must be among `icu_locales`.
pub fn find_base_default(icu_locales: &Vec<(Key, LocaleId)>, locale: &Key) -> (res: Option<Key>)
    requires
        id_of(locales_view(icu_locales@), locale@) is Some,
    ensures
        match res {
            Some(k) => spec_base_default(locales_view(icu_locales@), locale@) == Some(k@),
            None => spec_base_default(locales_view(icu_locales@), locale@) is None,
        },
{
    let ghost lv = locales_view(icu_locales@);
    let mut i: usize = 0;
    let mut found = false;
    assert(lv.skip(0) =~= lv);
    while i < icu_locales.len() && !found
        invariant
            lv == locales_view(icu_locales@),
            lv.len() == icu_locales@.len(),
            i <= icu_locales@.len(),
            id_of(lv, locale@) is Some,
            !found ==> id_of(lv, locale@) == id_of(lv.skip(i as int), locale@),
            found ==> i < icu_locales@.len() && id_of(lv, locale@) == Some(icu_locales@[i as int].1@),
        decreases icu_locales@.len() - i, if found { 0int } else { 1int },
    {
        assert(lv.skip(i as int)[0] == (icu_locales@[i as int].0@, icu_locales@[i as int].1@));
        assert(lv.skip(i as int).drop_first() =~= lv.skip(i + 1));
        if str_eq(icu_locales[i].0.name.as_str(), locale.name.as_str()) {
            found = true;
        } else {
            i = i + 1;
        }
    }
    if !found {
        assert(lv.skip(i as int) =~= Seq::<(Seq<char>, LocaleIdV)>::empty());
        return None;
    }
    let l = &icu_locales[i].1;
    assert(id_of(lv, locale@) == Some(l@));
    let finer = l.has_extensions || l.variants.len() > 0 || l.script.is_some();
    if !finer && l.region.is_none() {
        return None;
    }
    if finer {
        match find_with_id(icu_locales, &l.language, &l.region) {
            Some(k) => {
                return Some(k);
            },
            None => {},
        }
    }
    let none: Option<String> = None;
    find_with_id(icu_locales, &l.language, &none)
}

/// Where a locale's missing keys come from, and whether a missing key
/// should be reported (`Implicit`) or not (`Explicit`).
#[derive(Debug, Clone, PartialEq)]
pub enum DefaultTo {
    Explicit(Key),
    Implicit(Key),
}

impl DefaultTo {
    /// The locale fallen back to.
    pub fn get_key(&self) -> (res: &Key)
        ensures
            *res == (match *self {
                DefaultTo::Explicit(k) => k,
                DefaultTo::Implicit(k) => k,
            }),
    {
        match self {
            DefaultTo::Explicit(k) => k,
            DefaultTo::Implicit(k) => k,
        }
    }
}

/// View of a fallback: explicit or not, and the locale.
pub open spec fn default_to_view(d: DefaultTo) -> (bool, Seq<char>) {
    match d {
        DefaultTo::Explicit(k) => (true, k@),
        DefaultTo::Implicit(k) => (false, k@),
    }
}

pub open spec fn pairs_of_keys(v: Seq<(Key, Key)>) -> Seq<(Seq<char>, Seq<char>)> {
    v.map_values(|p: (Key, Key)| (p.0@, p.1@))
}

/// The fallback of `locale`: its declared inheritance, else its base
/// locale, explicitly; else the default locale, explicitly only when key
/// warnings are suppressed.
pub open spec fn spec_locale_fallback(
    extensions: Seq<(Seq<char>, Seq<char>)>,
    locales: Seq<(Seq<char>, LocaleIdV)>,
    default_locale: Seq<char>,
    locale: Seq<char>,
    suppress_key_warnings: bool,
) -> (bool, Seq<char>) {
    match map_get(extensions, locale) {
        Some(k) => (true, k),
        None => match spec_base_default(locales, locale) {
            Some(k) => (true, k),
            None => (suppress_key_warnings, default_locale),
        },
    }
}

/// The fallback of `locale` (see `spec_locale_fallback`); `extensions`
/// holds the declared inheritances as a map sorted by locale.
pub fn get_locale_fallback(
    extensions: &Vec<(Key, Key)>,
    icu_locales: &Vec<(Key, LocaleId)>,
    default_locale: &Key,
    locale: &Key,
    suppress_key_warnings: bool,
) -> (res: DefaultTo)
    requires
        id_of(locales_view(icu_locales@), locale@) is Some,
    ensures
        default_to_view(res) == spec_locale_fallback(
            pairs_of_keys(extensions@),
            locales_view(icu_locales@),
            default_locale@,
            locale@,
            suppress_key_warnings,
        ),
{
    let (i, found) = find_slot(extensions, locale.name.as_str());
    proof {
        assert(extensions@.map_values(|p: (Key, Key)| p.0@) =~= keys_of(pairs_of_keys(extensions@)));
        lemma_slot(pairs_of_keys(extensions@), locale@, locale@, i as int, found);
    }
    if found {
        return DefaultTo::Explicit(extensions[i].1.copy());
    }
    match find_base_default(icu_locales, locale) {
        Some(k) => DefaultTo::Explicit(k),
        None => if suppress_key_warnings {
            DefaultTo::Explicit(default_locale.copy())
        } else {
            DefaultTo::Implicit(default_locale.copy())
        },
    }
}

/// For each locale with missing keys, the locale they are taken from.
#[derive(Debug, Clone, PartialEq)]
pub struct DefaultedLocales {
    pub default_locale: Key,
    pub mapping: Vec<(Key, Key)>,
}

/// The number of mapped locales not yet visited.
pub open spec fn count_unvisited(m: Seq<(Seq<char>, Seq<char>)>, visited: Seq<Seq<char>>) -> nat
    decreases m.len(),
{
    if m.len() == 0 {
        0
    } else {
        count_unvisited(m.drop_last(), visited) + (if visited.contains(m.last().0) {
            0nat
        } else {
            1nat
        })
    }
}

pub proof fn lemma_count_unvisited(m: Seq<(Seq<char>, Seq<char>)>, visited: Seq<Seq<char>>, k: Seq<char>)
    ensures
        count_unvisited(m, visited.push(k)) <= count_unvisited(m, visited),
        !visited.contains(k) && keys_of(m).contains(k) ==> count_unvisited(m, visited.push(k))
            < count_unvisited(m, visited),
    decreases m.len(),
{
    if m.len() > 0 {
        lemma_count_unvisited(m.drop_last(), visited, k);
        if visited.contains(m.last().0) {
            let j = choose|j: int| 0 <= j < visited.len() && visited[j] == m.last().0;
            assert(visited.push(k)[j] == visited[j]);
        }
        if m.last().0 == k {
            assert(visited.push(k)[visited.len() as int] == k);
        }
        if !visited.contains(k) && keys_of(m).contains(k) && m.last().0 != k {
            let j = choose|j: int| 0 <= j < keys_of(m).len() && keys_of(m)[j] == k;
            assert(keys_of(m.drop_last())[j] == k);
        }
        if visited.push(k).contains(m.last().0) && !visited.contains(m.last().0) {
            let j = choose|j: int| 0 <= j < visited.push(k).len() && visited.push(k)[j] == m.last().0;
            assert(j == visited.len());
        }
    }
}

pub proof fn lemma_map_get_key<T>(m: Seq<(Seq<char>, T)>, k: Seq<char>)
    ensures
        map_get(m, k) is Some ==> keys_of(m).contains(k),
    decreases m.len(),
{
    if m.len() > 0 {
        if m[0].0 == k {
            assert(keys_of(m)[0] == k);
        } else if !str_less_of(k, m[0].0) {
            lemma_map_get_key(m.drop_first(), k);
            if map_get(m, k) is Some {
                let j = choose|j: int| 0 <= j < keys_of(m.drop_first()).len() && keys_of(m.drop_first())[j] == k;
                assert(keys_of(m)[j + 1] == k);
            }
        }
    }
}

pub open spec fn str_less_of(a: Seq<char>, b: Seq<char>) -> bool {
    crate::parse::str_less(a, b)
}

/// The locale `cur` finally takes its keys from: the mapping is followed
/// until a locale with no mapping; a loop in the mapping leads to the
/// default locale.
pub open spec fn spec_follow(
    m: Seq<(Seq<char>, Seq<char>)>,
    default_locale: Seq<char>,
    cur: Seq<char>,
    visited: Seq<Seq<char>>,
) -> Seq<char>
    decreases count_unvisited(m, visited),
{
    if visited.contains(cur) {
        default_locale
    } else {
        match map_get(m, cur) {
            None => cur,
            Some(next) => if visited.push(cur).contains(next) {
                default_locale
            } else {
                proof {
                    lemma_map_get_key(m, cur);
                    lemma_count_unvisited(m, visited, cur);
                }
                spec_follow(m, default_locale, next, visited.push(cur))
            },
        }
    }
}

/// The groups after adding `key` to the group of locale `d`, each group a
/// set of locales kept sorted.
pub open spec fn set_put(s: Seq<Seq<char>>, k: Seq<char>) -> Seq<Seq<char>>
    decreases s.len(),
{
    if s.len() == 0 {
        seq![k]
    } else if s[0] == k {
        s
    } else if str_less_of(k, s[0]) {
        seq![k] + s
    } else {
        seq![s[0]] + set_put(s.drop_first(), k)
    }
}

pub open spec fn group_put(g: Seq<(Seq<char>, Seq<Seq<char>>)>, d: Seq<char>, k: Seq<char>) -> Seq<
    (Seq<char>, Seq<Seq<char>>),
> {
    let set = match map_get(g, d) {
        Some(s) => s,
        None => Seq::empty(),
    };
    map_put(g, d, set_put(set, k))
}

/// The locales `ks` grouped by the locale their keys come from in the
/// mapping `m`.
pub open spec fn spec_group_keys(m: Seq<(Seq<char>, Seq<char>)>, ks: Seq<Seq<char>>, default_locale: Seq<char>) -> Seq<
    (Seq<char>, Seq<Seq<char>>),
>
    decreases ks.len(),
{
    if ks.len() == 0 {
        Seq::empty()
    } else {
        group_put(
            spec_group_keys(m, ks.drop_last(), default_locale),
            spec_follow(m, default_locale, ks.last(), Seq::empty()),
            ks.last(),
        )
    }
}

/// The mapped locales grouped by the locale their keys come from.
pub open spec fn spec_compute(m: Seq<(Seq<char>, Seq<char>)>, default_locale: Seq<char>) -> Seq<
    (Seq<char>, Seq<Seq<char>>),
> {
    spec_group_keys(m, keys_of(m), default_locale)
}

fn contains_key(v: &Vec<Key>, k: &Key) -> (res: bool)
    ensures
        res == v@.map_values(|x: Key| x@).contains(k@),
{
    let ghost vs = v@.map_values(|x: Key| x@);
    let mut i: usize = 0;
    while i < v.len()
        invariant
            vs == v@.map_values(|x: Key| x@),
            i <= v@.len(),
            forall|j: int| 0 <= j < i ==> vs[j] != k@,
        decreases v@.len() - i,
    {
        if str_eq(v[i].name.as_str(), k.name.as_str()) {
            assert(vs[i as int] == k@);
            return true;
        }
        i = i + 1;
    }
    false
}

fn set_insert(v: &mut Vec<Key>, k: Key)
    ensures
        final(v)@.map_values(|x: Key| x@) == set_put(old(v)@.map_values(|x: Key| x@), k@),
{
    let ghost s0 = v@.map_values(|x: Key| x@);
    assert(s0.skip(0) =~= s0);
    assert(s0.take(0) + set_put(s0.skip(0), k@) =~= set_put(s0, k@));
    let n = v.len();
    let mut i: usize = 0;
    while i < n
        invariant
            n == v@.len(),
            i <= n,
            s0 == v@.map_values(|x: Key| x@),
            s0 == old(v)@.map_values(|x: Key| x@),
            set_put(s0, k@) == s0.take(i as int) + set_put(s0.skip(i as int), k@),
        decreases n - i,
    {
        assert(s0.skip(i as int)[0] == v@[i as int]@);
        assert(s0.skip(i as int).drop_first() =~= s0.skip(i + 1));
        if str_eq(v[i].name.as_str(), k.name.as_str()) {
            assert(s0.take(i as int) + s0.skip(i as int) =~= s0);
            return;
        }
        if crate::parse::string_less(k.name.as_str(), v[i].name.as_str()) {
            let ghost kv = k@;
            v.insert(i, k);
            assert(v@.map_values(|x: Key| x@) =~= s0.take(i as int) + (seq![kv] + s0.skip(i as int)));
            return;
        }
        assert(s0.take(i as int) + (seq![s0[i as int]] + set_put(s0.skip(i + 1), k@)) =~= s0.take(
            i + 1,
        ) + set_put(s0.skip(i + 1), k@));
        i = i + 1;
    }
    let ghost kv = k@;
    v.push(k);
    assert(s0.skip(n as int) =~= Seq::<Seq<char>>::empty());
    assert(v@.map_values(|x: Key| x@) =~= s0.take(n as int) + seq![kv]);
}

pub open spec fn groups_view(g: Seq<(Key, Vec<Key>)>) -> Seq<(Seq<char>, Seq<Seq<char>>)> {
    g.map_values(|p: (Key, Vec<Key>)| (p.0@, p.1@.map_values(|x: Key| x@)))
}

impl DefaultedLocales {
    /// No mapping yet, with `default_locale` as the default.
    pub fn new(default_locale: Key) -> (res: DefaultedLocales)
        ensures
            res.default_locale == default_locale,
            res.mapping@.len() == 0,
    {
        DefaultedLocales { default_locale, mapping: Vec::new() }
    }

    /// Records that `key` takes its missing keys from its declared
    /// inheritance in `extensions`, or else from the default locale.
    pub fn push(&mut self, key: Key, extensions: &Vec<(Key, Key)>)
        ensures
            final(self).default_locale == old(self).default_locale,
            pairs_of_keys(final(self).mapping@) == map_put(
                pairs_of_keys(old(self).mapping@),
                key@,
                match map_get(pairs_of_keys(extensions@), key@) {
                    Some(d) => d,
                    None => old(self).default_locale@,
                },
            ),
    {
        let (j, found_ext) = find_slot(extensions, key.name.as_str());
        proof {
            assert(extensions@.map_values(|p: (Key, Key)| p.0@) =~= keys_of(pairs_of_keys(extensions@)));
            lemma_slot(pairs_of_keys(extensions@), key@, key@, j as int, found_ext);
        }
        let default_to = if found_ext {
            extensions[j].1.copy()
        } else {
            self.default_locale.copy()
        };
        self.push_default(key, default_to);
    }

    /// Records that `key` takes its missing keys from `default_to`.
    pub fn push_default(&mut self, key: Key, default_to: Key)
        ensures
            final(self).default_locale == old(self).default_locale,
            pairs_of_keys(final(self).mapping@) == map_put(pairs_of_keys(old(self).mapping@), key@, default_to@),
    {
        let (i, found) = find_slot(&self.mapping, key.name.as_str());
        let ghost m0 = pairs_of_keys(self.mapping@);
        proof {
            assert(self.mapping@.map_values(|p: (Key, Key)| p.0@) =~= keys_of(m0));
            lemma_slot(m0, key@, default_to@, i as int, found);
        }
        let ghost entry = (key@, default_to@);
        if found {
            let _ = self.mapping.remove(i);
            self.mapping.insert(i, (key, default_to));
            assert(pairs_of_keys(self.mapping@) =~= m0.update(i as int, entry));
        } else {
            self.mapping.insert(i, (key, default_to));
            assert(pairs_of_keys(self.mapping@) =~= m0.insert(i as int, entry));
        }
    }

    /// The locale that `key` finally takes its keys from (see
    /// `spec_follow`).
    pub fn default_of(&self, key: &Key) -> (res: Key)
        ensures
            res@ == spec_follow(pairs_of_keys(self.mapping@), self.default_locale@, key@, Seq::empty()),
    {
        let ghost m = pairs_of_keys(self.mapping@);
        let ghost d = self.default_locale@;
        let mut visited: Vec<Key> = Vec::new();
        let mut cur = key.copy();
        assert(visited@.map_values(|x: Key| x@) =~= Seq::<Seq<char>>::empty());
        loop
            invariant
                m == pairs_of_keys(self.mapping@),
                d == self.default_locale@,
                !visited@.map_values(|x: Key| x@).contains(cur@),
                spec_follow(m, d, key@, Seq::empty()) == spec_follow(
                    m,
                    d,
                    cur@,
                    visited@.map_values(|x: Key| x@),
                ),
            decreases count_unvisited(m, visited@.map_values(|x: Key| x@)),
        {
            let ghost vv = visited@.map_values(|x: Key| x@);
            let (i, found) = find_slot(&self.mapping, cur.name.as_str());
            proof {
                assert(self.mapping@.map_values(|p: (Key, Key)| p.0@) =~= keys_of(m));
                lemma_slot(m, cur@, cur@, i as int, found);
            }
            if !found {
                return cur;
            }
            let next = self.mapping[i].1.copy();
            assert(m[i as int].1 == next@);
            let ghost cv = cur@;
            visited.push(cur);
            assert(visited@.map_values(|x: Key| x@) =~= vv.push(cv));
            if contains_key(&visited, &next) {
                return self.default_locale.copy();
            }
            proof {
                lemma_map_get_key(m, cv);
                lemma_count_unvisited(m, vv, cv);
            }
            cur = next;
        }
    }

    /// The locales grouped by the locale their keys come from (see
    /// `spec_compute`), as a map sorted by that locale.
    pub fn compute(&self) -> (res: Vec<(Key, Vec<Key>)>)
        ensures
            groups_view(res@) == spec_compute(pairs_of_keys(self.mapping@), self.default_locale@),
    {
        let ghost m = pairs_of_keys(self.mapping@);
        let mut groups: Vec<(Key, Vec<Key>)> = Vec::new();
        let mut k: usize = 0;
        let ghost ks = keys_of(m);
        assert(groups_view(groups@) =~= spec_group_keys(m, ks.take(0), self.default_locale@));
        while k < self.mapping.len()
            invariant
                m == pairs_of_keys(self.mapping@),
                m.len() == self.mapping@.len(),
                k <= self.mapping@.len(),
                ks == keys_of(m),
                groups_view(groups@) == spec_group_keys(m, ks.take(k as int), self.default_locale@),
            decreases self.mapping@.len() - k,
        {
            let key = &self.mapping[k].0;
            let d = self.default_of(key);
            let ghost g0 = groups_view(groups@);
            let (i, found) = find_slot(&groups, d.name.as_str());
            proof {
                assert(groups@.map_values(|p: (Key, Vec<Key>)| p.0@) =~= keys_of(g0));
            }
            if found {
                let (gk, mut set) = groups.remove(i);
                let ghost sv = set@.map_values(|x: Key| x@);
                set_insert(&mut set, key.copy());
                let ghost entry = (d@, set_put(sv, key@));
                proof {
                    lemma_slot(g0, d@, entry.1, i as int, true);
                }
                groups.insert(i, (gk, set));
                assert(groups_view(groups@) =~= g0.update(i as int, entry));
            } else {
                let mut set: Vec<Key> = Vec::new();
                set_insert(&mut set, key.copy());
                let ghost entry = (d@, set_put(Seq::<Seq<char>>::empty(), key@));
                assert(set@.map_values(|x: Key| x@) == entry.1);
                proof {
                    lemma_slot(g0, d@, entry.1, i as int, false);
                }
                groups.insert(i, (d, set));
                assert(groups_view(groups@) =~= g0.insert(i as int, entry));
            }
            proof {
                assert(ks.take(k + 1).drop_last() =~= ks.take(k as int));
                assert(ks.take(k + 1).last() == ks[k as int]);
                assert(ks[k as int] == key@);
            }
            k = k + 1;
        }
        assert(ks.take(k as int) =~= ks);
        groups
    }
}

/// A sequence with one more element in front holds that element and what
/// the rest holds.
proof fn lemma_contains_cons(a: Seq<char>, t: Seq<Seq<char>>, x: Seq<char>)
    ensures
        (seq![a] + t).contains(x) <==> (a == x || t.contains(x)),
{
    let u = seq![a] + t;
    if u.contains(x) {
        let i = choose|i: int| 0 <= i < u.len() && u[i] == x;
        if i > 0 {
            assert(t[i - 1] == x);
        }
    }
    if a == x {
        assert(u[0] == x);
    }
    if t.contains(x) {
        let i = choose|i: int| 0 <= i < t.len() && t[i] == x;
        assert(u[i + 1] == x);
    }
}

/// A sequence with one more element at the end holds that element and what
/// it held.
proof fn lemma_contains_push(t: Seq<Seq<char>>, a: Seq<char>, x: Seq<char>)
    ensures
        t.push(a).contains(x) <==> (t.contains(x) || a == x),
{
    let u = t.push(a);
    if u.contains(x) {
        let i = choose|i: int| 0 <= i < u.len() && u[i] == x;
        if i < t.len() {
            assert(t[i] == x);
        }
    }
    if a == x {
        assert(u[t.len() as int] == x);
    }
    if t.contains(x) {
        let i = choose|i: int| 0 <= i < t.len() && t[i] == x;
        assert(u[i] == x);
    }
}

/// `set_put` adds `k` to the locales of a group and keeps the others.
proof fn lemma_set_put_contains(s: Seq<Seq<char>>, k: Seq<char>, x: Seq<char>)
    ensures
        set_put(s, k).contains(x) <==> (s.contains(x) || x == k),
        set_put(s, k).len() > 0,
    decreases s.len(),
{
    if s.len() == 0 {
        lemma_contains_cons(k, s, x);
        assert(seq![k] + s =~= seq![k]);
    } else {
        assert(s =~= seq![s[0]] + s.drop_first());
        lemma_contains_cons(s[0], s.drop_first(), x);
        if s[0] == k {
        } else if str_less_of(k, s[0]) {
            lemma_contains_cons(k, s, x);
        } else {
            lemma_set_put_contains(s.drop_first(), k, x);
            lemma_contains_cons(s[0], set_put(s.drop_first(), k), x);
        }
    }
}

/// In a map with names in increasing order, each entry is what `map_get`
/// finds under its name.
proof fn lemma_sorted_get_at<T>(m: Seq<(Seq<char>, T)>, i: int)
    requires
        sorted_names(m),
        0 <= i < m.len(),
    ensures
        map_get(m, m[i].0) == Some(m[i].1),
    decreases m.len(),
{
    if i > 0 {
        let t = m.drop_first();
        assert(str_less_of(m[0].0, m[i].0));
        if m[0].0 == m[i].0 {
            lemma_str_less_irrefl(m[0].0);
        }
        if str_less_of(m[i].0, m[0].0) {
            lemma_str_less_trans(m[0].0, m[i].0, m[0].0);
            lemma_str_less_irrefl(m[0].0);
        }
        assert(sorted_names(t)) by {
            assert forall|a: int, b: int| 0 <= a < b < t.len() implies str_less_of(
                #[trigger] t[a].0,
                #[trigger] t[b].0,
            ) by {
                assert(t[a] == m[a + 1] && t[b] == m[b + 1]);
            }
        }
        assert(t[i - 1] == m[i]);
        lemma_sorted_get_at(t, i - 1);
    }
}

/// What holds of the groups built from the locales `ks`: names in
/// increasing order, no empty group, each locale of a group is one of `ks`
/// that follows to the group's name, and each of `ks` lies in the group of
/// the locale it follows to.
pub open spec fn groups_partition(
    g: Seq<(Seq<char>, Seq<Seq<char>>)>,
    m: Seq<(Seq<char>, Seq<char>)>,
    ks: Seq<Seq<char>>,
    default_locale: Seq<char>,
) -> bool {
    &&& sorted_names(g)
    &&& forall|i: int| 0 <= i < g.len() ==> (#[trigger] g[i]).1.len() > 0
    &&& forall|i: int, x: Seq<char>|
        0 <= i < g.len() && #[trigger] g[i].1.contains(x) ==> ks.contains(x) && g[i].0 == spec_follow(
            m,
            default_locale,
            x,
            Seq::empty(),
        )
    &&& forall|k: Seq<char>|
        #![trigger ks.contains(k)]
        ks.contains(k) ==> (map_get(g, spec_follow(m, default_locale, k, Seq::empty())) matches Some(s)
            && s.contains(k))
}

proof fn lemma_group_keys_partition(m: Seq<(Seq<char>, Seq<char>)>, ks: Seq<Seq<char>>, d: Seq<char>)
    ensures
        groups_partition(spec_group_keys(m, ks, d), m, ks, d),
    decreases ks.len(),
{
    if ks.len() > 0 {
        let prev = ks.drop_last();
        let k = ks.last();
        lemma_group_keys_partition(m, prev, d);
        let g = spec_group_keys(m, prev, d);
        let dk = spec_follow(m, d, k, Seq::empty());
        let set = match map_get(g, dk) {
            Some(s) => s,
            None => Seq::empty(),
        };
        let ns = set_put(set, k);
        let g2 = spec_group_keys(m, ks, d);
        assert(g2 == map_put(g, dk, ns));
        assert(ks =~= prev.push(k));
        lemma_map_put_sorted(g, dk, ns);
        lemma_map_put_get_same(g, dk, ns);
        assert forall|i: int| 0 <= i < g2.len() implies (#[trigger] g2[i]).1.len() > 0 by {
            lemma_sorted_get_at(g2, i);
            if g2[i].0 == dk {
                lemma_set_put_contains(set, k, k);
            } else {
                lemma_map_put_get_other(g, dk, ns, g2[i].0);
                lemma_map_get_at(g, g2[i].0);
                let j = choose|j: int| 0 <= j < g.len() && g[j].0 == g2[i].0 && g[j].1 == g2[i].1;
                assert(g[j].1.len() > 0);
            }
        }
        assert forall|i: int, x: Seq<char>| 0 <= i < g2.len() && #[trigger] g2[i].1.contains(x) implies ks.contains(
            x,
        ) && g2[i].0 == spec_follow(m, d, x, Seq::empty()) by {
            lemma_sorted_get_at(g2, i);
            lemma_contains_push(prev, k, x);
            if g2[i].0 == dk {
                lemma_set_put_contains(set, k, x);
                if x != k {
                    lemma_map_get_at(g, dk);
                    let j = choose|j: int| 0 <= j < g.len() && g[j].0 == dk && g[j].1 == set;
                    assert(g[j].1.contains(x));
                }
            } else {
                lemma_map_put_get_other(g, dk, ns, g2[i].0);
                lemma_map_get_at(g, g2[i].0);
                let j = choose|j: int| 0 <= j < g.len() && g[j].0 == g2[i].0 && g[j].1 == g2[i].1;
                assert(g[j].1.contains(x));
            }
        }
        assert forall|k2: Seq<char>| #![trigger ks.contains(k2)] ks.contains(k2) implies map_get(
            g2,
            spec_follow(m, d, k2, Seq::empty()),
        ) is Some && map_get(g2, spec_follow(m, d, k2, Seq::empty()))->0.contains(k2) by {
            lemma_contains_push(prev, k, k2);
            let d2 = spec_follow(m, d, k2, Seq::empty());
            if k2 == k {
                lemma_set_put_contains(set, k, k);
            } else {
                assert(prev.contains(k2));
                if d2 == dk {
                    lemma_set_put_contains(set, k, k2);
                } else {
                    lemma_map_put_get_other(g, dk, ns, d2);
                }
            }
        }
    }
}

/// The groups that `compute` returns partition the mapped locales: no group
/// is empty, no locale lies in two groups, each locale of a group is a
/// mapped locale whose keys finally come from the group's locale, and each
/// mapped locale lies in the group of the locale it finally takes its keys
/// from.
pub proof fn law_compute_partition(m: Seq<(Seq<char>, Seq<char>)>, default_locale: Seq<char>)
    ensures
        ({
            let g = spec_compute(m, default_locale);
            &&& forall|i: int| 0 <= i < g.len() ==> (#[trigger] g[i]).1.len() > 0
            &&& forall|i: int, j: int, x: Seq<char>|
                0 <= i < g.len() && 0 <= j < g.len() && #[trigger] g[i].1.contains(x) && #[trigger] g[j].1.contains(x)
                    ==> i == j
            &&& forall|i: int, x: Seq<char>|
                0 <= i < g.len() && #[trigger] g[i].1.contains(x) ==> keys_of(m).contains(x) && g[i].0
                    == spec_follow(m, default_locale, x, Seq::empty())
            &&& forall|k: Seq<char>|
                #![trigger keys_of(m).contains(k)]
                keys_of(m).contains(k) ==> exists|i: int|
                    0 <= i < g.len() && (#[trigger] g[i]).0 == spec_follow(m, default_locale, k, Seq::empty())
                        && g[i].1.contains(k)
        }),
{
    let g = spec_compute(m, default_locale);
    let ks = keys_of(m);
    lemma_group_keys_partition(m, ks, default_locale);
    lemma_sorted_distinct(g);
    assert forall|k: Seq<char>| #![trigger keys_of(m).contains(k)] keys_of(m).contains(k) implies exists|i: int|
        0 <= i < g.len() && (#[trigger] g[i]).0 == spec_follow(m, default_locale, k, Seq::empty()) && g[i].1.contains(
            k,
        ) by {
        let t = spec_follow(m, default_locale, k, Seq::empty());
        lemma_map_get_at(g, t);
        let i = choose|i: int| 0 <= i < g.len() && g[i].0 == t && g[i].1 == map_get(g, t)->0;
        assert(g[i].1.contains(k));
    }
}

/// Following the mapping ends at a locale that has no mapping itself, or
/// at the default locale (when the mapping loops).
pub proof fn law_follow_ends(
    m: Seq<(Seq<char>, Seq<char>)>,
    default_locale: Seq<char>,
    cur: Seq<char>,
    visited: Seq<Seq<char>>,
)
    ensures
        map_get(m, spec_follow(m, default_locale, cur, visited)) is None || spec_follow(
            m,
            default_locale,
            cur,
            visited,
        ) == default_locale,
    decreases count_unvisited(m, visited),
{
    if !visited.contains(cur) {
        match map_get(m, cur) {
            None => {},
            Some(next) => {
                if !visited.push(cur).contains(next) {
                    lemma_map_get_key(m, cur);
                    lemma_count_unvisited(m, visited, cur);
                    law_follow_ends(m, default_locale, next, visited.push(cur));
                }
            },
        }
    }
}

proof fn lemma_first_with_id(locales: Seq<(Seq<char>, LocaleIdV)>, target: LocaleIdV)
    ensures
        first_with_id(locales, target) matches Some(k) ==> exists|i: int|
            0 <= i < locales.len() && locales[i].0 == k && locales[i].1 == target,
    decreases locales.len(),
{
    if locales.len() > 0 && locales[0].1 != target {
        lemma_first_with_id(locales.drop_first(), target);
        if first_with_id(locales, target) is Some {
            let i = choose|i: int|
                0 <= i < locales.drop_first().len() && locales.drop_first()[i].0 == first_with_id(
                    locales,
                    target,
                )->0 && locales.drop_first()[i].1 == target;
            assert(locales[i + 1] == locales.drop_first()[i]);
        }
    }
}

/// A locale falls back, through `find_base_default`, to a listed locale of
/// the same language that has neither script, variants nor extensions.
pub proof fn law_base_default_same_language(locales: Seq<(Seq<char>, LocaleIdV)>, key: Seq<char>)
    requires
        id_of(locales, key) is Some,
    ensures
        spec_base_default(locales, key) matches Some(k) ==> exists|i: int|
            0 <= i < locales.len() && locales[i].0 == k && locales[i].1.language == id_of(
                locales,
                key,
            )->0.language && locales[i].1.script is None && locales[i].1.variants.len() == 0
                && !locales[i].1.has_extensions,
{
    let l = id_of(locales, key)->0;
    lemma_first_with_id(locales, bare_id(l.language, l.region));
    lemma_first_with_id(locales, bare_id(l.language, None));
}

} // verus!
