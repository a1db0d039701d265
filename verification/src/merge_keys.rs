//! Gathering the locales' values key by key: each locale's value of a key
//! is simplified, its strings placed in the table, and stored under the
//! key; a key the locale lacks, or marks as default, takes the locale's
//! fallback, with a warning when it is missing.

use vstd::prelude::*;
use crate::builders::{
    lemma_map_get_at, lemma_map_put_get_other, lemma_map_put_get_same,
    InterpolationKeys, KeysV, extract_value_keys, find_slot, is_slot, keys_of, lemma_slot, map_get, map_put, spec_extract,
};
use crate::defaults::{DefaultedLocales, pairs_of_keys};
use crate::error::{ErrV, Error, WarnV, Warning, warnings_view};
use crate::indexer::StringIndexer;
use crate::interning::index_value;
use crate::key::{Key, KeyPath, KeyPathV};
use crate::merge::push_path;
use crate::parse::str_less;
use crate::reduce::{fk_resolved, spec_reduce};
use crate::text::str_eq;
use crate::value::{ParsedValue, ValueV};

verus! {

/// What one locale holds at a key: a value, an explicit default, or nested
/// keys.
#[derive(Debug, PartialEq)]
pub enum LocaleEntry {
    Value(ParsedValue),
    Defaulted,
    Subkeys(Vec<(Key, LocaleEntry)>),
}

pub enum LocaleEntryV {
    Value(ValueV),
    Defaulted,
    Subkeys(Seq<(Seq<char>, LocaleEntryV)>),
}

/// The view of an entry, nested levels included.
pub open spec fn entry_view(e: LocaleEntry) -> LocaleEntryV
    decreases e,
{
    match e {
        LocaleEntry::Value(v) => LocaleEntryV::Value(v@),
        LocaleEntry::Defaulted => LocaleEntryV::Defaulted,
        LocaleEntry::Subkeys(es) => LocaleEntryV::Subkeys(entries_rec(es@)),
    }
}

/// The views of the entries of a nested level.
pub open spec fn entries_rec(s: Seq<(Key, LocaleEntry)>) -> Seq<(Seq<char>, LocaleEntryV)>
    decreases s,
{
    if s.len() == 0 {
        Seq::empty()
    } else {
        entries_rec(s.drop_last()).push((s.last().0@, entry_view(s.last().1)))
    }
}

impl View for LocaleEntry {
    type V = LocaleEntryV;

    open spec fn view(&self) -> LocaleEntryV {
        entry_view(*self)
    }
}

/// The values of one key: each locale's value, by locale name, and the
/// locales that take the key from another locale; or, for a key with
/// nested keys, the values of the nested level (`subkeys`).
#[derive(Debug, PartialEq)]
pub struct Values {
    pub values: Vec<(Key, ParsedValue)>,
    pub defaults: DefaultedLocales,
    pub subkeys: Option<Vec<(Key, Values)>>,
}

pub struct ValuesV {
    pub values: Seq<(Seq<char>, ValueV)>,
    pub default_locale: Seq<char>,
    pub defaults: Seq<(Seq<char>, Seq<char>)>,
    pub subkeys: Option<Seq<(Seq<char>, ValuesV)>>,
}

pub open spec fn locale_values_view(v: Seq<(Key, ParsedValue)>) -> Seq<(Seq<char>, ValueV)> {
    v.map_values(|p: (Key, ParsedValue)| (p.0@, p.1@))
}

/// The view of a key's values, nested levels included.
pub open spec fn vals_view(v: Values) -> ValuesV
    decreases v,
{
    ValuesV {
        values: locale_values_view(v.values@),
        default_locale: v.defaults.default_locale@,
        defaults: pairs_of_keys(v.defaults.mapping@),
        subkeys: match v.subkeys {
            Some(ks) => Some(vals_entries(ks@)),
            None => None,
        },
    }
}

/// The views of the keys of a nested level.
pub open spec fn vals_entries(s: Seq<(Key, Values)>) -> Seq<(Seq<char>, ValuesV)>
    decreases s,
{
    if s.len() == 0 {
        Seq::empty()
    } else {
        vals_entries(s.drop_last()).push((s.last().0@, vals_view(s.last().1)))
    }
}

impl View for Values {
    type V = ValuesV;

    open spec fn view(&self) -> ValuesV {
        vals_view(*self)
    }
}

pub open spec fn keys_table_view(k: Seq<(Key, Values)>) -> Seq<(Seq<char>, ValuesV)> {
    k.map_values(|p: (Key, Values)| (p.0@, p.1@))
}

pub open spec fn entries_view(e: Seq<(Key, LocaleEntry)>) -> Seq<(Seq<char>, LocaleEntryV)> {
    e.map_values(|p: (Key, LocaleEntry)| (p.0@, p.1@))
}

/// The fallback recorded for `locale`: its declared inheritance in `ext`,
/// else the key's default locale; for a key with nested keys, recorded at
/// every nested key.
pub open spec fn with_fallback(v: ValuesV, locale: Seq<char>, ext: Seq<(Seq<char>, Seq<char>)>) -> ValuesV
    decreases v, 0int,
{
    match v.subkeys {
        Some(ks) => ValuesV { subkeys: Some(fallback_all(ks, locale, ext, ks.len() as int)), ..v },
        None => ValuesV {
            defaults: map_put(
                v.defaults,
                locale,
                match map_get(ext, locale) {
                    Some(d) => d,
                    None => v.default_locale,
                },
            ),
            ..v
        },
    }
}

/// The first `n` keys of a nested level with the fallback of `locale`
/// recorded (see `with_fallback`).
pub open spec fn fallback_all(
    ks: Seq<(Seq<char>, ValuesV)>,
    locale: Seq<char>,
    ext: Seq<(Seq<char>, Seq<char>)>,
    n: int,
) -> Seq<(Seq<char>, ValuesV)>
    decreases ks, n,
{
    if n <= 0 || n > ks.len() {
        ks
    } else {
        fallback_all(ks, locale, ext, n - 1).update(n - 1, (ks[n - 1].0, with_fallback(ks[n - 1].1, locale, ext)))
    }
}

/// The first pass, for a locale other than the default one: every known
/// key the locale does not hold at all takes the locale's fallback, with a
/// warning.
pub open spec fn missing_pass(
    keys: Seq<(Seq<char>, ValuesV)>,
    entries: Seq<(Seq<char>, LocaleEntryV)>,
    locale: Seq<char>,
    ext: Seq<(Seq<char>, Seq<char>)>,
    kp: KeyPathV,
) -> (Seq<(Seq<char>, ValuesV)>, Seq<WarnV>)
    decreases keys.len(),
{
    if keys.len() == 0 {
        (Seq::empty(), Seq::empty())
    } else {
        let prev = missing_pass(keys.drop_last(), entries, locale, ext, kp);
        let e = keys.last();
        if map_get(entries, e.0) is None {
            (
                prev.0.push((e.0, with_fallback(e.1, locale, ext))),
                prev.1.push(WarnV::MissingKey { locale, key_path: push_path(kp, e.0) }),
            )
        } else {
            (prev.0.push(e), prev.1)
        }
    }
}

pub struct MergeState {
    pub keys: Seq<(Seq<char>, ValuesV)>,
    pub strings: Seq<Seq<char>>,
    pub warnings: Seq<WarnV>,
    pub errors: Seq<ErrV>,
}

/// The second pass, over the locale's own entries in order: a value is
/// simplified, indexed and stored under its key (a key unknown so far is
/// created); nested keys are merged into the key's nested level (see
/// `spec_merge_keys`); a value where the key has nested keys, or nested
/// keys where it has values, is a `SubKeyMissmatch` and the key records the
/// locale's fallback instead; an explicit default is an error in the
/// default locale, takes the locale's fallback where the key is known, and
/// is a surplus key otherwise.
pub open spec fn entries_pass(
    st: MergeState,
    entries: Seq<(Seq<char>, LocaleEntryV)>,
    locale: Seq<char>,
    default_locale: Seq<char>,
    ext: Seq<(Seq<char>, Seq<char>)>,
    kp: KeyPathV,
) -> MergeState
    decreases entries, 0int,
{
    if entries.len() == 0 {
        st
    } else {
        proof {
            assert(decreases_to!(entries => entries.subrange(0, entries.len() - 1)));
        }
        let s = entries_pass(st, entries.subrange(0, entries.len() - 1), locale, default_locale, ext, kp);
        let k = entries[entries.len() - 1].0;
        let mismatch = ErrV::SubKeyMissmatch { locale, key_path: push_path(kp, k) };
        match entries[entries.len() - 1].1 {
            LocaleEntryV::Value(v) => match map_get(s.keys, k) {
                Some(x) if x.subkeys is Some => MergeState {
                    keys: map_put(s.keys, k, with_fallback(x, locale, ext)),
                    errors: s.errors.push(mismatch),
                    ..s
                },
                _ => {
                    let iv = index_value(spec_reduce(v), s.strings);
                    let vals = match map_get(s.keys, k) {
                        Some(x) => x,
                        None => ValuesV { values: Seq::empty(), default_locale, defaults: Seq::empty(), subkeys: None },
                    };
                    MergeState {
                        keys: map_put(s.keys, k, ValuesV { values: map_put(vals.values, locale, iv.0), ..vals }),
                        strings: iv.1,
                        ..s
                    }
                },
            },
            LocaleEntryV::Subkeys(es) => {
                let x = match map_get(s.keys, k) {
                    Some(x) => x,
                    None => ValuesV {
                        values: Seq::empty(),
                        default_locale,
                        defaults: Seq::empty(),
                        subkeys: Some(Seq::empty()),
                    },
                };
                match x.subkeys {
                    None => MergeState {
                        keys: map_put(s.keys, k, with_fallback(x, locale, ext)),
                        errors: s.errors.push(mismatch),
                        ..s
                    },
                    Some(ks) => {
                        let r = spec_merge_keys(
                            ks,
                            s.strings,
                            s.warnings,
                            s.errors,
                            es,
                            locale,
                            default_locale,
                            ext,
                            push_path(kp, k),
                        );
                        MergeState {
                            keys: map_put(s.keys, k, ValuesV { subkeys: Some(r.keys), ..x }),
                            strings: r.strings,
                            warnings: r.warnings,
                            errors: r.errors,
                        }
                    },
                }
            },
            LocaleEntryV::Defaulted => if locale == default_locale {
                MergeState { errors: s.errors.push(ErrV::ExplicitDefaultInDefault(push_path(kp, k))), ..s }
            } else {
                match map_get(s.keys, k) {
                    Some(x) => MergeState { keys: map_put(s.keys, k, with_fallback(x, locale, ext)), ..s },
                    None => MergeState {
                        warnings: s.warnings.push(WarnV::SurplusKey { locale, key_path: push_path(kp, k) }),
                        ..s
                    },
                }
            },
        }
    }
}

/// Both passes: the first only for a locale other than the default one.
pub open spec fn spec_merge_keys(
    keys: Seq<(Seq<char>, ValuesV)>,
    strings: Seq<Seq<char>>,
    warnings: Seq<WarnV>,
    errors: Seq<ErrV>,
    entries: Seq<(Seq<char>, LocaleEntryV)>,
    locale: Seq<char>,
    default_locale: Seq<char>,
    ext: Seq<(Seq<char>, Seq<char>)>,
    kp: KeyPathV,
) -> MergeState
    decreases entries, 1int,
{
    let first = if locale == default_locale {
        (keys, Seq::empty())
    } else {
        missing_pass(keys, entries, locale, ext, kp)
    };
    entries_pass(
        MergeState { keys: first.0, strings, warnings: warnings + first.1, errors },
        entries,
        locale,
        default_locale,
        ext,
        kp,
    )
}

/// The entry's values, at every nested level, have their foreign keys
/// resolved.
pub open spec fn entry_resolved(e: LocaleEntryV) -> bool
    decreases e, 0int,
{
    match e {
        LocaleEntryV::Value(v) => fk_resolved(v),
        LocaleEntryV::Defaulted => true,
        LocaleEntryV::Subkeys(es) => entries_resolved_v(es, es.len() as int),
    }
}

pub open spec fn entries_resolved_v(es: Seq<(Seq<char>, LocaleEntryV)>, n: int) -> bool
    decreases es, n,
{
    if n <= 0 || n > es.len() {
        true
    } else {
        entries_resolved_v(es, n - 1) && entry_resolved(es[n - 1].1)
    }
}

pub open spec fn entries_resolved(e: Seq<(Key, LocaleEntry)>) -> bool {
    forall|i: int| 0 <= i < e.len() ==> entry_resolved(#[trigger] e[i].1@)
}

proof fn lemma_entries_resolved_v(es: Seq<(Seq<char>, LocaleEntryV)>, n: int)
    requires
        0 <= n <= es.len(),
        entries_resolved_v(es, n),
    ensures
        forall|i: int| 0 <= i < n ==> entry_resolved(#[trigger] es[i].1),
    decreases n,
{
    if n > 0 {
        lemma_entries_resolved_v(es, n - 1);
    }
}

proof fn lemma_entries_rec(s: Seq<(Key, LocaleEntry)>)
    ensures
        entries_rec(s) == entries_view(s),
    decreases s.len(),
{
    if s.len() > 0 {
        lemma_entries_rec(s.drop_last());
        assert(entries_view(s) =~= entries_view(s.drop_last()).push((s.last().0@, s.last().1@)));
    } else {
        assert(entries_view(s) =~= Seq::<(Seq<char>, LocaleEntryV)>::empty());
    }
}

proof fn lemma_vals_entries(s: Seq<(Key, Values)>)
    ensures
        vals_entries(s) == keys_table_view(s),
    decreases s.len(),
{
    if s.len() > 0 {
        lemma_vals_entries(s.drop_last());
        assert(keys_table_view(s) =~= keys_table_view(s.drop_last()).push((s.last().0@, s.last().1@)));
    } else {
        assert(keys_table_view(s) =~= Seq::<(Seq<char>, ValuesV)>::empty());
    }
}

fn kp_with(kp: &KeyPath, k: &Key) -> (res: KeyPath)
    ensures
        res@ == push_path(kp@, k@),
{
    let mut p = kp.copy();
    p.push_key(k.copy());
    assert(p@.path =~= kp@.path.push(k@));
    p
}

proof fn lemma_table_slot(v: Seq<(Key, Values)>, k: Seq<char>, i: int, found: bool)
    requires
        is_slot(v.map_values(|p: (Key, Values)| p.0@), k, i, found),
    ensures
        is_slot(keys_of(keys_table_view(v)), k, i, found),
{
    assert(v.map_values(|p: (Key, Values)| p.0@) =~= keys_of(keys_table_view(v)));
}

proof fn lemma_entries_slot(v: Seq<(Key, LocaleEntry)>, k: Seq<char>, i: int, found: bool)
    requires
        is_slot(v.map_values(|p: (Key, LocaleEntry)| p.0@), k, i, found),
    ensures
        is_slot(keys_of(entries_view(v)), k, i, found),
{
    assert(v.map_values(|p: (Key, LocaleEntry)| p.0@) =~= keys_of(entries_view(v)));
}

proof fn lemma_locale_values_slot(v: Seq<(Key, ParsedValue)>, k: Seq<char>, i: int, found: bool)
    requires
        is_slot(v.map_values(|p: (Key, ParsedValue)| p.0@), k, i, found),
    ensures
        is_slot(keys_of(locale_values_view(v)), k, i, found),
{
    assert(v.map_values(|p: (Key, ParsedValue)| p.0@) =~= keys_of(locale_values_view(v)));
}

proof fn lemma_skip_next<T>(a: Seq<T>, b: Seq<T>, i: int)
    requires
        0 <= i < a.len(),
        a.len() == b.len(),
        a.skip(i) == b.skip(i),
    ensures
        a.skip(i + 1) == b.skip(i + 1),
{
    assert forall|j: int| 0 <= j < a.len() - i - 1 implies #[trigger] a.skip(i + 1)[j] == b.skip(i + 1)[j] by {
        assert(a.skip(i + 1)[j] == a.skip(i)[j + 1]);
        assert(b.skip(i + 1)[j] == b.skip(i)[j + 1]);
    }
    assert(a.skip(i + 1) =~= b.skip(i + 1));
}

pub open spec fn arbitrary_vals() -> ValuesV {
    ValuesV { values: Seq::empty(), default_locale: Seq::empty(), defaults: Seq::empty(), subkeys: None }
}

/// Stores `v` under `locale` in a key's values.
fn put_locale_value(values: &mut Vec<(Key, ParsedValue)>, locale: &Key, v: ParsedValue)
    ensures
        locale_values_view(final(values)@) == map_put(locale_values_view(old(values)@), locale@, v@),
{
    let (i, found) = find_slot(values, locale.name.as_str());
    let ghost m = locale_values_view(values@);
    proof {
        lemma_locale_values_slot(values@, locale@, i as int, found);
        lemma_slot(m, locale@, v@, i as int, found);
    }
    if found {
        let _ = values.remove(i);
    }
    values.insert(i, (locale.copy(), v));
    if found {
        assert(locale_values_view(values@) =~= m.update(i as int, (locale@, v@)));
    } else {
        assert(locale_values_view(values@) =~= m.insert(i as int, (locale@, v@)));
    }
}

/// Records the fallback of `locale` in a key's values (see
/// `with_fallback`).
fn record_fallback(vals: &mut Values, locale: &Key, extensions: &Vec<(Key, Key)>)
    ensures
        final(vals)@ == with_fallback(old(vals)@, locale@, pairs_of_keys(extensions@)),
    decreases *old(vals),
{
    let ghost v0 = *vals;
    let ghost ext = pairs_of_keys(extensions@);
    match vals.subkeys.take() {
        None => {
            vals.defaults.push(locale.copy(), extensions);
        },
        Some(mut ks) => {
            let ghost ks0 = ks@;
            let ghost kv0 = keys_table_view(ks0);
            proof {
                lemma_vals_entries(ks0);
                assert(decreases_to!(v0 => v0.subkeys));
                assert(decreases_to!(v0.subkeys => v0.subkeys->Some_0));
                assert(decreases_to!(v0.subkeys->Some_0 => v0.subkeys->Some_0@));
            }
            let mut i: usize = 0;
            while i < ks.len()
                invariant
                    i <= ks@.len(),
                    ks@.len() == ks0.len(),
                    kv0 == keys_table_view(ks0),
                    v0.subkeys is Some && v0.subkeys->Some_0@ == ks0,
                    v0 == *old(vals),
                    ext == pairs_of_keys(extensions@),
                    keys_table_view(ks@) == fallback_all(kv0, locale@, ext, i as int),
                    forall|j: int| i <= j < ks@.len() ==> #[trigger] ks@[j] == ks0[j],
                decreases ks@.len() - i,
            {
                let ghost before = ks@;
                let (k, mut v) = ks.remove(i);
                assert(v == ks0[i as int].1);
                assert(v == v0.subkeys->Some_0@[i as int].1);
                proof {
                    assert(decreases_to!(v0.subkeys->Some_0@ => v0.subkeys->Some_0@[i as int]));
                    assert(decreases_to!(v0.subkeys->Some_0@[i as int] => v0.subkeys->Some_0@[i as int].1));
                }
                record_fallback(&mut v, locale, extensions);
                ks.insert(i, (k, v));
                proof {
                    assert(ks@ =~= before.update(i as int, ks@[i as int]));
                    assert(keys_table_view(ks@) =~= keys_table_view(before).update(
                        i as int,
                        (kv0[i as int].0, with_fallback(kv0[i as int].1, locale@, ext)),
                    ));
                    assert forall|j: int| i + 1 <= j < ks@.len() implies #[trigger] ks@[j] == ks0[j] by {
                        assert(ks@[j] == before[j]);
                    }
                }
                i = i + 1;
            }
            let ghost kf = ks@;
            vals.subkeys = Some(ks);
            proof {
                lemma_vals_entries(kf);
            }
        },
    }
}

/// Merges one locale's entries at one level of keys into `keys` (see
/// `spec_merge_keys`); warnings and errors are appended to the lists.
#[verifier::rlimit(80)]
#[verifier::spinoff_prover]
pub fn merge_and_index_keys(
    entries: &Vec<(Key, LocaleEntry)>,
    locale: &Key,
    default_locale: &Key,
    keys: &mut Vec<(Key, Values)>,
    key_path: &KeyPath,
    extensions: &Vec<(Key, Key)>,
    strings: &mut StringIndexer,
    warnings: &mut Vec<Warning>,
    errors: &mut Vec<Error>,
)
    requires
        old(strings).wf(),
        entries_resolved(entries@),
    ensures
        final(strings).wf(),
        ({
            let r = spec_merge_keys(
                keys_table_view(old(keys)@),
                old(strings)@,
                warnings_view(old(warnings)@),
                crate::error::errs_view(old(errors)@),
                entries_view(entries@),
                locale@,
                default_locale@,
                pairs_of_keys(extensions@),
                key_path@,
            );
            &&& keys_table_view(final(keys)@) == r.keys
            &&& final(strings)@ == r.strings
            &&& warnings_view(final(warnings)@) == r.warnings
            &&& crate::error::errs_view(final(errors)@) == r.errors
        }),
    decreases entries@,
{
    let ghost ev = entries_view(entries@);
    let ghost ext = pairs_of_keys(extensions@);
    let ghost k0 = keys_table_view(keys@);
    let ghost w0 = warnings_view(warnings@);
    let is_default = str_eq(locale.name.as_str(), default_locale.name.as_str());
    if !is_default {
        let mut i: usize = 0;
        let ghost mut added: Seq<WarnV> = Seq::empty();
        assert(k0.take(0) =~= Seq::<(Seq<char>, ValuesV)>::empty());
        assert(keys_table_view(keys@).skip(0) =~= k0);
        while i < keys.len()
            invariant
                i <= keys@.len(),
                keys@.len() == k0.len(),
                ev == entries_view(entries@),
                ext == pairs_of_keys(extensions@),
                keys_table_view(keys@).take(i as int) == missing_pass(k0.take(i as int), ev, locale@, ext, key_path@).0,
                keys_table_view(keys@).skip(i as int) == k0.skip(i as int),
                warnings_view(warnings@) == w0 + missing_pass(k0.take(i as int), ev, locale@, ext, key_path@).1,
            decreases keys@.len() - i,
        {
            let ghost kv_before = keys_table_view(keys@);
            assert(kv_before[i as int] == k0[i as int]) by {
                assert(kv_before.skip(i as int)[0] == k0.skip(i as int)[0]);
            }
            let (j, found) = find_slot(entries, keys[i].0.name.as_str());
            proof {
                lemma_entries_slot(entries@, keys@[i as int].0@, j as int, found);
                lemma_slot(ev, keys@[i as int].0@, LocaleEntryV::Defaulted, j as int, found);
                assert(k0.take(i + 1).drop_last() =~= k0.take(i as int));
                assert(k0.take(i + 1).last() == k0[i as int]);
            }
            if !found {
                let (k, mut vals) = keys.remove(i);
                let kp = kp_with(key_path, &k);
                let ghost wb = warnings@;
                warnings.push(Warning::MissingKey { locale: locale.copy(), key_path: kp });
                assert(warnings_view(warnings@) =~= warnings_view(wb).push(
                    WarnV::MissingKey { locale: locale@, key_path: push_path(key_path@, k0[i as int].0) },
                ));
                record_fallback(&mut vals, locale, extensions);
                keys.insert(i, (k, vals));
                proof {
                    let mp = missing_pass(k0.take(i + 1), ev, locale@, ext, key_path@);
                    assert(keys_table_view(keys@) =~= kv_before.update(
                        i as int,
                        (kv_before[i as int].0, with_fallback(kv_before[i as int].1, locale@, ext)),
                    ));
                    assert(keys_table_view(keys@).take(i + 1) =~= mp.0);
                    lemma_skip_next(kv_before, k0, i as int);
                    assert(keys_table_view(keys@).skip(i + 1) =~= kv_before.skip(i + 1));
                    assert(warnings_view(warnings@) =~= w0 + mp.1);
                }
            } else {
                proof {
                    let mp = missing_pass(k0.take(i + 1), ev, locale@, ext, key_path@);
                    assert(keys_table_view(keys@).take(i + 1) =~= mp.0);
                    lemma_skip_next(kv_before, k0, i as int);
                }
            }
            i = i + 1;
        }
        assert(k0.take(i as int) =~= k0);
        assert(keys_table_view(keys@).take(i as int) =~= keys_table_view(keys@));
    } else {
        assert(w0 + Seq::<WarnV>::empty() =~= w0);
    }
    let ghost first = if locale@ == default_locale@ {
        (k0, Seq::<WarnV>::empty())
    } else {
        missing_pass(k0, ev, locale@, ext, key_path@)
    };
    let ghost st0 = MergeState {
        keys: first.0,
        strings: strings@,
        warnings: warnings_view(old(warnings)@) + first.1,
        errors: crate::error::errs_view(errors@),
    };
    assert(keys_table_view(keys@) == st0.keys);
    assert(warnings_view(warnings@) == st0.warnings);
    let mut n: usize = 0;
    assert(ev.take(0) =~= Seq::<(Seq<char>, LocaleEntryV)>::empty());
    while n < entries.len()
        invariant
            n <= entries@.len(),
            ev == entries_view(entries@),
            ev.len() == entries@.len(),
            ext == pairs_of_keys(extensions@),
            is_default == (locale@ == default_locale@),
            entries_resolved(entries@),
            strings.wf(),
            ({
                let s = entries_pass(st0, ev.take(n as int), locale@, default_locale@, ext, key_path@);
                &&& keys_table_view(keys@) == s.keys
                &&& strings@ == s.strings
                &&& warnings_view(warnings@) == s.warnings
                &&& crate::error::errs_view(errors@) == s.errors
            }),
        decreases entries@.len() - n,
    {
        proof {
            assert(ev.take(n + 1).drop_last() =~= ev.take(n as int));
            assert(ev.take(n + 1).last() == ev[n as int]);
            assert(ev[n as int] == (entries@[n as int].0@, entries@[n as int].1@));
        }
        let k = &entries[n].0;
        match &entries[n].1 {
            LocaleEntry::Value(v) => {
                assert(entry_resolved(entries@[n as int].1@));
                assert(fk_resolved(v@));
                let (i, found) = find_slot(keys, k.name.as_str());
                let ghost m = keys_table_view(keys@);
                proof {
                    lemma_table_slot(keys@, k@, i as int, found);
                    lemma_slot(m, k@, arbitrary_vals(), i as int, found);
                }
                let nested = found && match &keys[i].1.subkeys {
                    Some(_) => true,
                    None => false,
                };
                if nested {
                    let (kk, mut vals) = keys.remove(i);
                    record_fallback(&mut vals, locale, extensions);
                    let ghost new_vals = vals@;
                    keys.insert(i, (kk, vals));
                    let ghost before = errors@;
                    errors.push(Error::SubKeyMissmatch { locale: locale.copy(), key_path: kp_with(key_path, k) });
                    proof {
                        lemma_slot(m, k@, new_vals, i as int, true);
                        assert(keys_table_view(keys@) =~= m.update(i as int, (k@, new_vals)));
                        crate::error::lemma_errs_push(before, errors@.last());
                        assert(errors@ =~= before.push(errors@.last()));
                    }
                } else {
                    let mut w = v.copy();
                    w.reduce();
                    w.index_strings(strings);
                    let mut vals = if found {
                        let (_, vals) = keys.remove(i);
                        vals
                    } else {
                        let vals = Values {
                            values: Vec::new(),
                            defaults: DefaultedLocales::new(default_locale.copy()),
                            subkeys: None,
                        };
                        assert(vals@.values =~= Seq::<(Seq<char>, ValueV)>::empty());
                        assert(vals@.defaults =~= Seq::<(Seq<char>, Seq<char>)>::empty());
                        vals
                    };
                    let ghost old_vals = vals@;
                    put_locale_value(&mut vals.values, locale, w);
                    let ghost new_vals = vals@;
                    keys.insert(i, (k.copy(), vals));
                    proof {
                        lemma_slot(m, k@, new_vals, i as int, found);
                        if found {
                            assert(keys_table_view(keys@) =~= m.update(i as int, (k@, new_vals)));
                        } else {
                            assert(keys_table_view(keys@) =~= m.insert(i as int, (k@, new_vals)));
                        }
                    }
                }
            },
            LocaleEntry::Subkeys(es) => {
                let (i, found) = find_slot(keys, k.name.as_str());
                let ghost m = keys_table_view(keys@);
                proof {
                    lemma_table_slot(keys@, k@, i as int, found);
                    lemma_slot(m, k@, arbitrary_vals(), i as int, found);
                }
                let mut vals = if found {
                    let (_, vals) = keys.remove(i);
                    vals
                } else {
                    let vals = Values {
                        values: Vec::new(),
                        defaults: DefaultedLocales::new(default_locale.copy()),
                        subkeys: Some(Vec::new()),
                    };
                    assert(vals@.values =~= Seq::<(Seq<char>, ValueV)>::empty());
                    assert(vals@.defaults =~= Seq::<(Seq<char>, Seq<char>)>::empty());
                    assert(vals@.subkeys == Some(Seq::<(Seq<char>, ValuesV)>::empty()));
                    vals
                };
                let ghost x = vals@;
                match vals.subkeys.take() {
                    None => {
                        record_fallback(&mut vals, locale, extensions);
                        let ghost new_vals = vals@;
                        keys.insert(i, (k.copy(), vals));
                        let ghost before = errors@;
                        errors.push(Error::SubKeyMissmatch { locale: locale.copy(), key_path: kp_with(key_path, k) });
                        proof {
                            lemma_slot(m, k@, new_vals, i as int, found);
                            if found {
                                assert(keys_table_view(keys@) =~= m.update(i as int, (k@, new_vals)));
                            } else {
                                assert(keys_table_view(keys@) =~= m.insert(i as int, (k@, new_vals)));
                            }
                            crate::error::lemma_errs_push(before, errors@.last());
                            assert(errors@ =~= before.push(errors@.last()));
                        }
                    },
                    Some(mut ks) => {
                        let kp = kp_with(key_path, k);
                        proof {
                            lemma_entries_rec(es@);
                            lemma_vals_entries(ks@);
                            let ee = entries@[n as int].1@;
                            assert(entry_resolved(ee));
                            assert(ee == LocaleEntryV::Subkeys(entries_rec(es@)));
                            lemma_entries_resolved_v(entries_rec(es@), es@.len() as int);
                            assert forall|q: int| 0 <= q < es@.len() implies entry_resolved(#[trigger] es@[q].1@) by {
                                assert(entries_view(es@)[q] == (es@[q].0@, es@[q].1@));
                                assert(entries_rec(es@)[q] == entries_view(es@)[q]);
                                assert(entry_resolved(entries_rec(es@)[q].1));
                            }
                            assert(decreases_to!(entries@ => entries@[n as int]));
                            assert(decreases_to!(entries@[n as int] => entries@[n as int].1));
                            assert(decreases_to!(entries@[n as int].1 => entries@[n as int].1->Subkeys_0));
                            assert(decreases_to!(entries@[n as int].1->Subkeys_0 => entries@[n as int].1->Subkeys_0@));
                        }
                        merge_and_index_keys(es, locale, default_locale, &mut ks, &kp, extensions, strings, warnings, errors);
                        let ghost kf = ks@;
                        vals.subkeys = Some(ks);
                        proof {
                            lemma_vals_entries(kf);
                        }
                        let ghost new_vals = vals@;
                        keys.insert(i, (k.copy(), vals));
                        proof {
                            lemma_slot(m, k@, new_vals, i as int, found);
                            if found {
                                assert(keys_table_view(keys@) =~= m.update(i as int, (k@, new_vals)));
                            } else {
                                assert(keys_table_view(keys@) =~= m.insert(i as int, (k@, new_vals)));
                            }
                        }
                    },
                }
            },
            LocaleEntry::Defaulted => {
                if is_default {
                    let ghost before = errors@;
                    errors.push(Error::ExplicitDefaultInDefault(kp_with(key_path, k)));
                    proof {
                        crate::error::lemma_errs_push(before, errors@.last());
                        assert(errors@ =~= before.push(errors@.last()));
                    }
                } else {
                    let (i, found) = find_slot(keys, k.name.as_str());
                    let ghost m = keys_table_view(keys@);
                    proof {
                        lemma_table_slot(keys@, k@, i as int, found);
                    }
                    if found {
                        let (kk, mut vals) = keys.remove(i);
                        let ghost old_vals = vals@;
                        record_fallback(&mut vals, locale, extensions);
                        let ghost new_vals = vals@;
                        keys.insert(i, (kk, vals));
                        proof {
                            lemma_slot(m, k@, new_vals, i as int, true);
                            assert(keys_table_view(keys@) =~= m.update(i as int, (k@, new_vals)));
                        }
                    } else {
                        proof {
                            lemma_slot(
                                m,
                                k@,
                                ValuesV { values: Seq::empty(), default_locale: Seq::empty(), defaults: Seq::empty(), subkeys: None },
                                i as int,
                                false,
                            );
                        }
                        let ghost before = warnings@;
                        warnings.push(Warning::SurplusKey { locale: locale.copy(), key_path: kp_with(key_path, k) });
                        assert(warnings_view(warnings@) =~= warnings_view(before).push(warnings@.last()@));
                    }
                }
            },
        }
        n = n + 1;
    }
    assert(ev.take(n as int) =~= ev);
}

proof fn lemma_default_pass_no_warnings(
    st: MergeState,
    entries: Seq<(Seq<char>, LocaleEntryV)>,
    locale: Seq<char>,
    ext: Seq<(Seq<char>, Seq<char>)>,
    kp: KeyPathV,
)
    ensures
        entries_pass(st, entries, locale, locale, ext, kp).warnings == st.warnings,
    decreases entries,
{
    if entries.len() > 0 {
        let init = entries.subrange(0, entries.len() - 1);
        assert(decreases_to!(entries => init));
        lemma_default_pass_no_warnings(st, init, locale, ext, kp);
        let s = entries_pass(st, init, locale, locale, ext, kp);
        let k = entries[entries.len() - 1].0;
        match entries[entries.len() - 1].1 {
            LocaleEntryV::Subkeys(es) => {
                let x = match map_get(s.keys, k) {
                    Some(x) => x,
                    None => ValuesV {
                        values: Seq::empty(),
                        default_locale: locale,
                        defaults: Seq::empty(),
                        subkeys: Some(Seq::empty()),
                    },
                };
                if let Some(ks) = x.subkeys {
                    let st2 = MergeState { keys: ks, strings: s.strings, warnings: s.warnings + Seq::<WarnV>::empty(), errors: s.errors };
                    assert(decreases_to!(entries => entries[entries.len() - 1]));
                    assert(decreases_to!(entries[entries.len() - 1] => entries[entries.len() - 1].1));
                    assert(decreases_to!(entries[entries.len() - 1].1 => es));
                    lemma_default_pass_no_warnings(st2, es, locale, ext, push_path(kp, k));
                    assert(s.warnings + Seq::<WarnV>::empty() =~= s.warnings);
                    assert(spec_merge_keys(ks, s.strings, s.warnings, s.errors, es, locale, locale, ext, push_path(kp, k))
                        == entries_pass(st2, es, locale, locale, ext, push_path(kp, k)));
                    assert(entries_pass(st, entries, locale, locale, ext, kp).warnings == spec_merge_keys(
                        ks,
                        s.strings,
                        s.warnings,
                        s.errors,
                        es,
                        locale,
                        locale,
                        ext,
                        push_path(kp, k),
                    ).warnings);
                }
            },
            _ => {},
        }
    }
}

/// The default locale is never warned about: merging it leaves the
/// warnings as they were (an explicit default there is an error instead).
pub proof fn law_default_locale_has_no_key_warnings(
    keys: Seq<(Seq<char>, ValuesV)>,
    strings: Seq<Seq<char>>,
    warnings: Seq<WarnV>,
    errors: Seq<ErrV>,
    entries: Seq<(Seq<char>, LocaleEntryV)>,
    locale: Seq<char>,
    ext: Seq<(Seq<char>, Seq<char>)>,
    kp: KeyPathV,
)
    ensures
        spec_merge_keys(keys, strings, warnings, errors, entries, locale, locale, ext, kp).warnings == warnings,
{
    let st = MergeState { keys, strings, warnings: warnings + Seq::<WarnV>::empty(), errors };
    assert(warnings + Seq::<WarnV>::empty() =~= warnings);
    lemma_default_pass_no_warnings(st, entries, locale, ext, kp);
}

proof fn lemma_missing_pass_shape(
    keys: Seq<(Seq<char>, ValuesV)>,
    entries: Seq<(Seq<char>, LocaleEntryV)>,
    locale: Seq<char>,
    ext: Seq<(Seq<char>, Seq<char>)>,
    kp: KeyPathV,
)
    ensures
        missing_pass(keys, entries, locale, ext, kp).0.len() == keys.len(),
        forall|j: int|
            0 <= j < keys.len() ==> {
                let r = #[trigger] missing_pass(keys, entries, locale, ext, kp).0[j];
                &&& r.0 == keys[j].0
                &&& r.1 == if map_get(entries, keys[j].0) is None {
                    with_fallback(keys[j].1, locale, ext)
                } else {
                    keys[j].1
                }
            },
    decreases keys.len(),
{
    if keys.len() > 0 {
        lemma_missing_pass_shape(keys.drop_last(), entries, locale, ext, kp);
        let prev = missing_pass(keys.drop_last(), entries, locale, ext, kp);
        let r = missing_pass(keys, entries, locale, ext, kp);
        assert forall|j: int| 0 <= j < keys.len() implies {
            let x = #[trigger] r.0[j];
            &&& x.0 == keys[j].0
            &&& x.1 == if map_get(entries, keys[j].0) is None {
                with_fallback(keys[j].1, locale, ext)
            } else {
                keys[j].1
            }
        } by {
            if j < keys.len() - 1 {
                assert(r.0[j] == prev.0[j]);
                assert(keys.drop_last()[j] == keys[j]);
            }
        }
    }
}

/// Every key known before a locale other than the default one is merged,
/// and that the locale does not hold at all, gets the locale's fallback
/// (at every nested key, for a key with nested keys); the others are left
/// as they were, and no key is added or dropped.
pub proof fn law_missing_keys_take_fallback(
    keys: Seq<(Seq<char>, ValuesV)>,
    entries: Seq<(Seq<char>, LocaleEntryV)>,
    locale: Seq<char>,
    ext: Seq<(Seq<char>, Seq<char>)>,
    kp: KeyPathV,
)
    ensures
        missing_pass(keys, entries, locale, ext, kp).0.len() == keys.len(),
        forall|j: int|
            0 <= j < keys.len() ==> (#[trigger] missing_pass(keys, entries, locale, ext, kp).0[j]).0 == keys[j].0,
        forall|j: int|
            0 <= j < keys.len() && map_get(entries, keys[j].0) is None ==> (#[trigger] missing_pass(
                keys,
                entries,
                locale,
                ext,
                kp,
            ).0[j]).1 == with_fallback(keys[j].1, locale, ext),
        forall|j: int|
            0 <= j < keys.len() && map_get(entries, keys[j].0) is None && keys[j].1.subkeys is None ==> map_get(
                (#[trigger] missing_pass(keys, entries, locale, ext, kp).0[j]).1.defaults,
                locale,
            ) is Some,
        forall|j: int|
            0 <= j < keys.len() && map_get(entries, keys[j].0) is Some ==> (#[trigger] missing_pass(
                keys,
                entries,
                locale,
                ext,
                kp,
            ).0[j]).1 == keys[j].1,
{
    lemma_missing_pass_shape(keys, entries, locale, ext, kp);
    assert forall|j: int| 0 <= j < keys.len() && map_get(entries, keys[j].0) is None && keys[j].1.subkeys is None implies map_get(
        (#[trigger] missing_pass(keys, entries, locale, ext, kp).0[j]).1.defaults,
        locale,
    ) is Some by {
        let v = keys[j].1;
        let d = match map_get(ext, locale) {
            Some(x) => x,
            None => v.default_locale,
        };
        crate::builders::lemma_map_put_get_same(v.defaults, locale, d);
    }
}

/// The position visited at step `j` when the default locale, at position
/// `d`, is swapped to the front.
pub open spec fn visit_index(j: int, d: int) -> int {
    if j == 0 {
        d
    } else if j == d {
        0
    } else {
        j
    }
}

/// The first position of a locale named `name`.
pub open spec fn locale_index(ls: Seq<(Seq<char>, Seq<(Seq<char>, LocaleEntryV)>)>, name: Seq<char>, i: int) -> Option<
    int,
>
    decreases ls.len() - i,
{
    if i < 0 || i >= ls.len() {
        None
    } else if ls[i].0 == name {
        Some(i)
    } else {
        locale_index(ls, name, i + 1)
    }
}

pub struct MergeAll {
    pub keys: Seq<(Seq<char>, ValuesV)>,
    pub locales: Seq<(Seq<char>, Seq<Seq<char>>)>,
    pub warnings: Seq<WarnV>,
    pub errors: Seq<ErrV>,
}

/// The first `n` locales merged, the default one first (swapped with the
/// first locale): each locale's entries are merged into the keys with a
/// string table of its own, which is kept with its name.
pub open spec fn merge_all(
    ls: Seq<(Seq<char>, Seq<(Seq<char>, LocaleEntryV)>)>,
    d: int,
    dl: Seq<char>,
    ext: Seq<(Seq<char>, Seq<char>)>,
    kp: KeyPathV,
    w0: Seq<WarnV>,
    e0: Seq<ErrV>,
    n: int,
) -> MergeAll
    decreases n,
{
    if n <= 0 {
        MergeAll { keys: Seq::empty(), locales: Seq::empty(), warnings: w0, errors: e0 }
    } else {
        let prev = merge_all(ls, d, dl, ext, kp, w0, e0, n - 1);
        let l = ls[visit_index(n - 1, d)];
        let r = spec_merge_keys(prev.keys, Seq::empty(), prev.warnings, prev.errors, l.1, l.0, dl, ext, kp);
        MergeAll {
            keys: r.keys,
            locales: prev.locales.push((l.0, r.strings)),
            warnings: r.warnings,
            errors: r.errors,
        }
    }
}

pub open spec fn locales_view(ls: Seq<(Key, Vec<(Key, LocaleEntry)>)>) -> Seq<
    (Seq<char>, Seq<(Seq<char>, LocaleEntryV)>),
> {
    ls.map_values(|l: (Key, Vec<(Key, LocaleEntry)>)| (l.0@, entries_view(l.1@)))
}

pub open spec fn tables_view(ls: Seq<(Key, Vec<String>)>) -> Seq<(Seq<char>, Seq<Seq<char>>)> {
    ls.map_values(|l: (Key, Vec<String>)| (l.0@, crate::indexer::strings_view(l.1@)))
}

/// The keys of all locales, with each locale's string table.
#[derive(Debug, PartialEq)]
pub struct MergedLocales {
    pub keys: Vec<(Key, Values)>,
    pub locales: Vec<(Key, Vec<String>)>,
}

/// Merges the locales, the default one first (see `merge_all`); the
/// default locale must be among them.
pub fn merge_locales(
    locales: &Vec<(Key, Vec<(Key, LocaleEntry)>)>,
    default_locale: &Key,
    namespace: Option<Key>,
    extensions: &Vec<(Key, Key)>,
    warnings: &mut Vec<Warning>,
    errors: &mut Vec<Error>,
) -> (res: MergedLocales)
    requires
        locale_index(locales_view(locales@), default_locale@, 0) is Some,
        forall|i: int| 0 <= i < locales@.len() ==> entries_resolved(#[trigger] locales@[i].1@),
    ensures
        ({
            let lv = locales_view(locales@);
            let r = merge_all(
                lv,
                locale_index(lv, default_locale@, 0)->0,
                default_locale@,
                pairs_of_keys(extensions@),
                KeyPathV {
                    namespace: match namespace {
                        Some(k) => Some(k@),
                        None => None,
                    },
                    path: Seq::empty(),
                },
                warnings_view(old(warnings)@),
                crate::error::errs_view(old(errors)@),
                lv.len() as int,
            );
            &&& keys_table_view(res.keys@) == r.keys
            &&& tables_view(res.locales@) == r.locales
            &&& warnings_view(final(warnings)@) == r.warnings
            &&& crate::error::errs_view(final(errors)@) == r.errors
        }),
{
    let ghost lv = locales_view(locales@);
    let ghost ext = pairs_of_keys(extensions@);
    let ghost w0 = warnings_view(warnings@);
    let ghost e0 = crate::error::errs_view(errors@);
    let mut d: usize = 0;
    while d < locales.len() && !str_eq(locales[d].0.name.as_str(), default_locale.name.as_str())
        invariant
            d <= locales@.len(),
            lv == locales_view(locales@),
            locale_index(lv, default_locale@, 0) == locale_index(lv, default_locale@, d as int),
            locale_index(lv, default_locale@, 0) is Some,
        decreases locales@.len() - d,
    {
        assert(lv[d as int].0 == locales@[d as int].0@);
        d = d + 1;
    }
    proof {
        if d >= locales@.len() {
            assert(locale_index(lv, default_locale@, d as int) is None);
        }
        assert(lv[d as int].0 == locales@[d as int].0@);
    }
    let kp = KeyPath::new(namespace);
    assert(kp@.path =~= Seq::<Seq<char>>::empty());
    let mut keys: Vec<(Key, Values)> = Vec::new();
    let mut tables: Vec<(Key, Vec<String>)> = Vec::new();
    assert(keys_table_view(keys@) =~= Seq::<(Seq<char>, ValuesV)>::empty());
    assert(tables_view(tables@) =~= Seq::<(Seq<char>, Seq<Seq<char>>)>::empty());
    let n = locales.len();
    let mut j: usize = 0;
    while j < n
        invariant
            n == locales@.len(),
            j <= n,
            d < n,
            lv == locales_view(locales@),
            locale_index(lv, default_locale@, 0) == Some(d as int),
            forall|i: int| 0 <= i < locales@.len() ==> entries_resolved(#[trigger] locales@[i].1@),
            ({
                let r = merge_all(lv, d as int, default_locale@, ext, kp@, w0, e0, j as int);
                &&& keys_table_view(keys@) == r.keys
                &&& tables_view(tables@) == r.locales
                &&& warnings_view(warnings@) == r.warnings
                &&& crate::error::errs_view(errors@) == r.errors
            }),
            ext == pairs_of_keys(extensions@),
        decreases n - j,
    {
        let k = if j == 0 {
            d
        } else if j == d {
            0
        } else {
            j
        };
        assert(k as int == visit_index(j as int, d as int));
        let name = &locales[k].0;
        let entries = &locales[k].1;
        assert(lv[k as int] == (name@, entries_view(entries@)));
        assert(entries_resolved(locales@[k as int].1@));
        let mut strings = StringIndexer::new();
        merge_and_index_keys(entries, name, default_locale, &mut keys, &kp, extensions, &mut strings, warnings, errors);
        let table = strings.get_strings();
        let ghost before = tables@;
        tables.push((name.copy(), table));
        assert(tables_view(tables@) =~= tables_view(before).push((name@, crate::indexer::strings_view(table@))));
        j = j + 1;
    }
    MergedLocales { keys, locales: tables }
}

/// The interpolation keys of all the locales' values of a key, read in
/// locale order (see `spec_extract`); `None` where a component is used both
/// self-closed and not.
pub open spec fn spec_make_keys(vs: Seq<(Seq<char>, ValueV)>, k: KeysV) -> Option<KeysV>
    decreases vs.len(),
{
    if vs.len() == 0 {
        Some(k)
    } else {
        match spec_make_keys(vs.drop_last(), k) {
            Some(k1) => spec_extract(vs.last().1, k1),
            None => None,
        }
    }
}

pub open spec fn no_keys() -> KeysV {
    KeysV { comps: Seq::empty(), vars: Seq::empty() }
}

proof fn lemma_make_keys_prefix(vs: Seq<(Seq<char>, ValueV)>, k: KeysV, i: int)
    requires
        0 <= i <= vs.len(),
        spec_make_keys(vs, k) is Some,
    ensures
        spec_make_keys(vs.take(i), k) is Some,
    decreases vs.len() - i,
{
    if i < vs.len() {
        lemma_make_keys_prefix(vs, k, i + 1);
        assert(vs.take(i + 1).drop_last() =~= vs.take(i));
    } else {
        assert(vs.take(i) =~= vs);
    }
}

/// The interpolation keys that a key's builder needs (see
/// `spec_make_keys`).
pub fn make_keys(values: &Values) -> (res: InterpolationKeys)
    requires
        spec_make_keys(values@.values, no_keys()) is Some,
    ensures
        res@ == spec_make_keys(values@.values, no_keys())->0,
{
    let ghost vv = values@.values;
    let mut keys = InterpolationKeys::new();
    assert(keys@ == no_keys());
    let mut i: usize = 0;
    assert(vv.take(0) =~= Seq::<(Seq<char>, ValueV)>::empty());
    while i < values.values.len()
        invariant
            vv == values@.values,
            vv.len() == values.values@.len(),
            i <= values.values@.len(),
            spec_make_keys(vv, no_keys()) is Some,
            spec_make_keys(vv.take(i as int), no_keys()) == Some(keys@),
        decreases values.values@.len() - i,
    {
        proof {
            lemma_make_keys_prefix(vv, no_keys(), i + 1);
            assert(vv.take(i + 1).drop_last() =~= vv.take(i as int));
            assert(vv.take(i + 1).last() == vv[i as int]);
            assert(vv[i as int] == (values.values@[i as int].0@, values.values@[i as int].1@));
        }
        extract_value_keys(&values.values[i].1, &mut keys);
        i = i + 1;
    }
    assert(vv.take(i as int) =~= vv);
    keys
}

/// A key's values hold something for `locale`: a value, or a fallback.
pub open spec fn covers(vals: ValuesV, locale: Seq<char>) -> bool {
    map_get(vals.values, locale) is Some || map_get(vals.defaults, locale) is Some
}

pub open spec fn after_missing(
    entries: Seq<(Seq<char>, LocaleEntryV)>,
    locale: Seq<char>,
    ext: Seq<(Seq<char>, Seq<char>)>,
    key: Seq<char>,
    v: ValuesV,
) -> ValuesV {
    if map_get(entries, key) is None {
        with_fallback(v, locale, ext)
    } else {
        v
    }
}

proof fn lemma_missing_get(
    keys: Seq<(Seq<char>, ValuesV)>,
    entries: Seq<(Seq<char>, LocaleEntryV)>,
    locale: Seq<char>,
    ext: Seq<(Seq<char>, Seq<char>)>,
    kp: KeyPathV,
    m2: Seq<(Seq<char>, ValuesV)>,
    k: Seq<char>,
)
    requires
        m2.len() == keys.len(),
        forall|j: int|
            0 <= j < keys.len() ==> #[trigger] m2[j] == (keys[j].0, after_missing(entries, locale, ext, keys[j].0, keys[j].1)),
    ensures
        map_get(m2, k) == match map_get(keys, k) {
            Some(v) => Some(after_missing(entries, locale, ext, k, v)),
            None => None,
        },
    decreases keys.len(),
{
    if keys.len() > 0 {
        assert(m2[0] == (keys[0].0, after_missing(entries, locale, ext, keys[0].0, keys[0].1)));
        if keys[0].0 != k && !str_less(k, keys[0].0) {
            assert forall|j: int| 0 <= j < keys.drop_first().len() implies #[trigger] m2.drop_first()[j] == (
                keys.drop_first()[j].0,
                after_missing(entries, locale, ext, keys.drop_first()[j].0, keys.drop_first()[j].1),
            ) by {
                assert(m2.drop_first()[j] == m2[j + 1]);
                assert(keys.drop_first()[j] == keys[j + 1]);
            }
            lemma_missing_get(keys.drop_first(), entries, locale, ext, kp, m2.drop_first(), k);
        }
    }
}

proof fn lemma_pass_covers(
    st: MergeState,
    full: Seq<(Seq<char>, LocaleEntryV)>,
    n: int,
    locale: Seq<char>,
    dl: Seq<char>,
    ext: Seq<(Seq<char>, Seq<char>)>,
    kp: KeyPathV,
    k: Seq<char>,
)
    requires
        0 <= n <= full.len(),
        locale != dl,
        map_get(st.keys, k) is Some,
        map_get(st.keys, k)->0.subkeys is None,
        covers(map_get(st.keys, k)->0, locale) || exists|j: int| 0 <= j < full.len() && #[trigger] full[j].0 == k,
    ensures
        map_get(entries_pass(st, full.take(n), locale, dl, ext, kp).keys, k) is Some,
        map_get(entries_pass(st, full.take(n), locale, dl, ext, kp).keys, k)->0.subkeys is None,
        covers(map_get(entries_pass(st, full.take(n), locale, dl, ext, kp).keys, k)->0, locale) || exists|j: int|
            n <= j < full.len() && #[trigger] full[j].0 == k,
    decreases n,
{
    if n > 0 {
        lemma_pass_covers(st, full, n - 1, locale, dl, ext, kp, k);
        let e = full.take(n);
        assert(e.drop_last() =~= full.take(n - 1));
        assert(e.last() == full[n - 1]);
        let s = entries_pass(st, full.take(n - 1), locale, dl, ext, kp);
        let r = entries_pass(st, e, locale, dl, ext, kp);
        let k2 = full[n - 1].0;
        let mismatch = ErrV::SubKeyMissmatch { locale, key_path: push_path(kp, k2) };
        match full[n - 1].1 {
            LocaleEntryV::Value(v) => {
                if map_get(s.keys, k2) is Some && map_get(s.keys, k2)->0.subkeys is Some {
                    let x = map_get(s.keys, k2)->0;
                    let nv = with_fallback(x, locale, ext);
                    assert(r.keys == map_put(s.keys, k2, nv));
                    assert(k2 != k);
                    lemma_map_put_get_other(s.keys, k2, nv, k);
                } else {
                    let iv = index_value(crate::reduce::spec_reduce(v), s.strings);
                    let vals = match map_get(s.keys, k2) {
                        Some(x) => x,
                        None => ValuesV { values: Seq::empty(), default_locale: dl, defaults: Seq::empty(), subkeys: None },
                    };
                    let nv = ValuesV { values: map_put(vals.values, locale, iv.0), ..vals };
                    assert(r.keys == map_put(s.keys, k2, nv));
                    if k2 == k {
                        lemma_map_put_get_same(s.keys, k2, nv);
                        lemma_map_put_get_same(vals.values, locale, iv.0);
                    } else {
                        lemma_map_put_get_other(s.keys, k2, nv, k);
                    }
                }
            },
            LocaleEntryV::Subkeys(es) => {
                let x = match map_get(s.keys, k2) {
                    Some(x) => x,
                    None => ValuesV { values: Seq::empty(), default_locale: dl, defaults: Seq::empty(), subkeys: Some(Seq::empty()) },
                };
                match x.subkeys {
                    None => {
                        let nv = with_fallback(x, locale, ext);
                        assert(r.keys == map_put(s.keys, k2, nv));
                        if k2 == k {
                            lemma_map_put_get_same(s.keys, k2, nv);
                            lemma_map_put_get_same(
                                x.defaults,
                                locale,
                                match map_get(ext, locale) {
                                    Some(d) => d,
                                    None => x.default_locale,
                                },
                            );
                        } else {
                            lemma_map_put_get_other(s.keys, k2, nv, k);
                        }
                    },
                    Some(ks) => {
                        let rr = spec_merge_keys(ks, s.strings, s.warnings, s.errors, es, locale, dl, ext, push_path(kp, k2));
                        let nv = ValuesV { subkeys: Some(rr.keys), ..x };
                        assert(r.keys == map_put(s.keys, k2, nv));
                        assert(k2 != k);
                        lemma_map_put_get_other(s.keys, k2, nv, k);
                    },
                }
            },
            LocaleEntryV::Defaulted => {
                match map_get(s.keys, k2) {
                    Some(x) => {
                        let nv = with_fallback(x, locale, ext);
                        assert(r.keys == map_put(s.keys, k2, nv));
                        if k2 == k {
                            lemma_map_put_get_same(s.keys, k2, nv);
                            lemma_map_put_get_same(
                                x.defaults,
                                locale,
                                match map_get(ext, locale) {
                                    Some(d) => d,
                                    None => x.default_locale,
                                },
                            );
                        } else {
                            lemma_map_put_get_other(s.keys, k2, nv, k);
                        }
                    },
                    None => {},
                }
            },
        }
    }
}

/// Merging a locale other than the default one leaves every known key
/// without nested keys holding, for that locale, either its value or its
/// fallback.
pub proof fn law_merged_locale_covers_known_keys(
    keys: Seq<(Seq<char>, ValuesV)>,
    strings: Seq<Seq<char>>,
    warnings: Seq<WarnV>,
    errors: Seq<ErrV>,
    entries: Seq<(Seq<char>, LocaleEntryV)>,
    locale: Seq<char>,
    default_locale: Seq<char>,
    ext: Seq<(Seq<char>, Seq<char>)>,
    kp: KeyPathV,
    k: Seq<char>,
)
    requires
        locale != default_locale,
        map_get(keys, k) is Some,
        map_get(keys, k)->0.subkeys is None,
    ensures
        map_get(spec_merge_keys(keys, strings, warnings, errors, entries, locale, default_locale, ext, kp).keys, k)
            is Some,
        covers(
            map_get(
                spec_merge_keys(keys, strings, warnings, errors, entries, locale, default_locale, ext, kp).keys,
                k,
            )->0,
            locale,
        ),
{
    let m1 = missing_pass(keys, entries, locale, ext, kp);
    lemma_missing_pass_shape(keys, entries, locale, ext, kp);
    lemma_missing_get(keys, entries, locale, ext, kp, m1.0, k);
    let v = map_get(keys, k)->0;
    if map_get(entries, k) is None {
        lemma_map_put_get_same(
            v.defaults,
            locale,
            match map_get(ext, locale) {
                Some(d) => d,
                None => v.default_locale,
            },
        );
    } else {
        lemma_map_get_at(entries, k);
        let j = choose|j: int| 0 <= j < entries.len() && entries[j].0 == k && entries[j].1 == map_get(entries, k)->0;
        assert(entries[j].0 == k);
    }
    let st = MergeState { keys: m1.0, strings, warnings: warnings + m1.1, errors };
    lemma_pass_covers(st, entries, entries.len() as int, locale, default_locale, ext, kp, k);
    assert(entries.take(entries.len() as int) =~= entries);
}

} // verus!
