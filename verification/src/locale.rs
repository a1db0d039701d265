//! One locale's keys at one level, checked against the default locale:
//! the default locale sets what each key needs, every other locale is
//! merged in, with warnings for its missing and surplus keys.

use vstd::prelude::*;
use crate::builders::{
    find_slot, is_slot, keys_of, lemma_map_get_at, lemma_map_put_get_other, lemma_map_put_get_same,
    lemma_map_put_sorted, lemma_slot, lemma_sorted_distinct, map_get, map_put, sorted_names,
};
use crate::defaults::{
    DefaultTo, LocaleId, LocaleIdV, default_to_view, get_locale_fallback, id_of, lemma_map_get_key,
    locales_view, pairs_of_keys, parsed_locale, spec_locale_fallback,
};
use crate::error::{ErrV, Error, WarnV, Warning, warnings_view};
use crate::indexer::{StringIndexer, strings_view};
use crate::interning::index_value;
use crate::key::{Key, KeyPath, KeyPathV};
use crate::locale_keys::{LocaleValue, LocaleValueV, fallback_key, lv_entries, spec_get_keys, spec_merge_plain};
use crate::merge::push_path;
use crate::reduce::{fk_resolved, fk_resolved_entries, spec_reduce};
use crate::text::to_owned;
use crate::value::{FkV, ForeignKey, ParsedValue, ValueV, view_entries};

verus! {

/// A locale's values, by key, kept sorted by key.
pub struct Locale {
    pub top_locale_name: Key,
    pub name: Key,
    pub keys: Vec<(Key, ParsedValue)>,
    pub strings: Vec<String>,
    pub top_locale_string_count: usize,
}

pub open spec fn values_view(k: Seq<(Key, ParsedValue)>) -> Seq<(Seq<char>, ValueV)> {
    k.map_values(|p: (Key, ParsedValue)| (p.0@, p.1@))
}

pub open spec fn lvs_view(k: Seq<(Key, LocaleValue)>) -> Seq<(Seq<char>, LocaleValueV)> {
    k.map_values(|p: (Key, LocaleValue)| (p.0@, p.1@))
}

pub open spec fn all_resolved(k: Seq<(Key, ParsedValue)>) -> bool {
    forall|i: int| 0 <= i < k.len() ==> fk_resolved(#[trigger] k[i].1@)
}

/// The default locale's keys, in order: each value simplified, its strings
/// placed in the table, and the keys it needs recorded; an explicit
/// default is an error there.
pub open spec fn spec_builder_keys(
    vs: Seq<(Seq<char>, ValueV)>,
    top: Seq<char>,
    kp: KeyPathV,
    t: Seq<Seq<char>>,
) -> Result<(Seq<(Seq<char>, ValueV)>, Seq<(Seq<char>, LocaleValueV)>, Seq<Seq<char>>), ErrV>
    decreases vs.len(),
{
    if vs.len() == 0 {
        Ok((Seq::empty(), Seq::empty(), t))
    } else {
        match spec_builder_keys(vs.drop_last(), top, kp, t) {
            Err(e) => Err(e),
            Ok(p) => {
                let k = vs.last().0;
                let r = spec_reduce(vs.last().1);
                if r is Default {
                    Err(ErrV::ExplicitDefaultInDefault(push_path(kp, k)))
                } else {
                    let iv = index_value(r, p.2);
                    Ok(
                        (
                            p.0.push((k, iv.0)),
                            map_put(
                                p.1,
                                k,
                                LocaleValueV { value: spec_get_keys(iv.0), default_locale: top, defaults: Seq::empty(), subkeys: None },
                            ),
                            iv.1,
                        ),
                    )
                }
            },
        }
    }
}

pub struct LocaleMerge {
    pub keys: Seq<(Seq<char>, LocaleValueV)>,
    pub mine: Seq<(Seq<char>, ValueV)>,
    pub strings: Seq<Seq<char>>,
    pub warnings: Seq<WarnV>,
}

/// The first `n` keys of a level of the default locale merged with this
/// locale's values at that level: a key the locale lacks is given an
/// explicit default (with a warning when the fallback is implicit), then
/// its value is merged in (see `spec_merge_value`); the first error stops.
pub open spec fn merge_pass(
    keys: Seq<(Seq<char>, LocaleValueV)>,
    st: LocaleMerge,
    top: Seq<char>,
    fb: (bool, Seq<char>),
    kp: KeyPathV,
    suppress: bool,
    n: int,
) -> Result<LocaleMerge, ErrV>
    decreases keys, 1int, n,
{
    if n <= 0 || n > keys.len() {
        Ok(st)
    } else {
        match merge_pass(keys, st, top, fb, kp, suppress, n - 1) {
            Err(e) => Err(e),
            Ok(s) => {
                let k = keys[n - 1].0;
                let missing = map_get(s.mine, k) is None;
                let mine1 = if missing {
                    map_put(s.mine, k, ValueV::Default)
                } else {
                    s.mine
                };
                let w1 = if missing && !fb.0 {
                    s.warnings.push(WarnV::MissingKey { locale: top, key_path: push_path(kp, k) })
                } else {
                    s.warnings
                };
                match spec_merge_value(
                    keys[n - 1].1,
                    map_get(mine1, k)->0,
                    top,
                    fb,
                    push_path(kp, k),
                    suppress,
                    s.strings,
                    w1,
                ) {
                    Err(e) => Err(e),
                    Ok(m) => Ok(
                        LocaleMerge {
                            keys: s.keys.update(n - 1, (k, m.0)),
                            mine: map_put(mine1, k, m.1),
                            strings: m.2,
                            warnings: m.3,
                        },
                    ),
                }
            },
        }
    }
}

/// One level merged: every key of the default locale's level (see
/// `merge_pass`), then a warning for each of this locale's keys that the
/// level lacks, unless key warnings are suppressed.
pub open spec fn merge_level(
    keys: Seq<(Seq<char>, LocaleValueV)>,
    mine: Seq<(Seq<char>, ValueV)>,
    top: Seq<char>,
    fb: (bool, Seq<char>),
    kp: KeyPathV,
    suppress: bool,
    t: Seq<Seq<char>>,
    w: Seq<WarnV>,
) -> Result<LocaleMerge, ErrV>
    decreases keys, 2int, 0int,
{
    let st0 = LocaleMerge { keys: keys, mine: mine, strings: t, warnings: w };
    match merge_pass(keys, st0, top, fb, kp, suppress, keys.len() as int) {
        Err(e) => Err(e),
        Ok(r) => Ok(
            LocaleMerge {
                keys: r.keys,
                mine: r.mine,
                strings: r.strings,
                warnings: if suppress {
                    r.warnings
                } else {
                    r.warnings + surplus(r.keys, r.mine, top, kp)
                },
            },
        ),
    }
}

/// The level of a locale that holds every key of `keys` as an explicit
/// default.
pub open spec fn default_entries(keys: Seq<(Seq<char>, LocaleValueV)>) -> Seq<(Seq<char>, ValueV)> {
    keys.map_values(|p: (Seq<char>, LocaleValueV)| (p.0, ValueV::Default))
}

/// A locale's value `v` of a key merged into the key's requirement `lv`
/// (the value read in locale `top`, at `kp`, falling back to `fb`), with
/// the string table and warnings after it. For a key without nested keys
/// see `spec_merge_plain`; nested values are merged level by level (see
/// `merge_level`), an explicit default as a level where every key is an
/// explicit default; a value with nested keys for a key without, or the
/// converse, is a mismatch.
pub open spec fn spec_merge_value(
    lv: LocaleValueV,
    v: ValueV,
    top: Seq<char>,
    fb: (bool, Seq<char>),
    kp: KeyPathV,
    suppress: bool,
    t: Seq<Seq<char>>,
    w: Seq<WarnV>,
) -> Result<(LocaleValueV, ValueV, Seq<Seq<char>>, Seq<WarnV>), ErrV>
    decreases lv, 0int, 0int,
{
    let r = spec_reduce(v);
    match lv.subkeys {
        Some(ks) => {
            if r is Default || r is Subkeys {
                let mine = if r is Default {
                    default_entries(ks)
                } else {
                    r->Subkeys_0
                };
                match merge_level(ks, mine, top, fb, kp, suppress, t, w) {
                    Err(e) => Err(e),
                    Ok(m) => Ok(
                        (
                            LocaleValueV { subkeys: Some(m.keys), ..lv },
                            ValueV::Subkeys(m.mine),
                            m.strings,
                            m.warnings,
                        ),
                    ),
                }
            } else {
                Err(ErrV::SubKeyMissmatch { locale: top, key_path: kp })
            }
        },
        None => {
            if r is Subkeys {
                Err(ErrV::SubKeyMissmatch { locale: top, key_path: kp })
            } else {
                let p = spec_merge_plain(lv, v, top, fb.1, t);
                Ok((p.0, p.1, p.2, w))
            }
        },
    }
}

/// Every level of the requirement keeps its keys once each.
pub open spec fn lv_wf(lv: LocaleValueV) -> bool
    decreases lv, 0int,
{
    match lv.subkeys {
        Some(ks) => distinct_keys(ks) && keys_wf(ks, ks.len() as int),
        None => true,
    }
}

/// The first `n` requirements of a level are well formed.
pub open spec fn keys_wf(ks: Seq<(Seq<char>, LocaleValueV)>, n: int) -> bool
    decreases ks, n,
{
    if n <= 0 || n > ks.len() {
        true
    } else {
        keys_wf(ks, n - 1) && lv_wf(ks[n - 1].1)
    }
}

/// The surplus-key warnings: each of the locale's keys that the default
/// locale does not have, in order.
pub open spec fn surplus(
    keys: Seq<(Seq<char>, LocaleValueV)>,
    mine: Seq<(Seq<char>, ValueV)>,
    top: Seq<char>,
    kp: KeyPathV,
) -> Seq<WarnV>
    decreases mine.len(),
{
    if mine.len() == 0 {
        Seq::empty()
    } else {
        let prev = surplus(keys, mine.drop_last(), top, kp);
        if map_get(keys, mine.last().0) is None {
            prev.push(WarnV::SurplusKey { locale: top, key_path: push_path(kp, mine.last().0) })
        } else {
            prev
        }
    }
}

proof fn lemma_values_slot(v: Seq<(Key, ParsedValue)>, k: Seq<char>, i: int, found: bool)
    requires
        is_slot(v.map_values(|p: (Key, ParsedValue)| p.0@), k, i, found),
    ensures
        is_slot(keys_of(values_view(v)), k, i, found),
{
    assert(v.map_values(|p: (Key, ParsedValue)| p.0@) =~= keys_of(values_view(v)));
}

proof fn lemma_lvs_slot(v: Seq<(Key, LocaleValue)>, k: Seq<char>, i: int, found: bool)
    requires
        is_slot(v.map_values(|p: (Key, LocaleValue)| p.0@), k, i, found),
    ensures
        is_slot(keys_of(lvs_view(v)), k, i, found),
{
    assert(v.map_values(|p: (Key, LocaleValue)| p.0@) =~= keys_of(lvs_view(v)));
}

fn kp_with(kp: &KeyPath, k: &Key) -> (res: KeyPath)
    ensures
        res@ == push_path(kp@, k@),
{
    let mut p = kp.copy();
    p.push_key(k.copy());
    assert(p@.path =~= kp@.path.push(k@));
    p
}

impl Locale {
    /// Renames the locale the values are taken from.
    pub fn update_top_locale_name(&mut self, top_locale_name: &Key)
        ensures
            final(self).top_locale_name == *top_locale_name,
            final(self).name == old(self).name,
            final(self).keys == old(self).keys,
            final(self).strings == old(self).strings,
            final(self).top_locale_string_count == old(self).top_locale_string_count,
    {
        self.top_locale_name = top_locale_name.copy();
    }

    /// The keys of the default locale (see `spec_builder_keys`); its values
    /// are left simplified and indexed.
    pub fn make_builder_keys(&mut self, key_path: &KeyPath, strings: &mut StringIndexer) -> (res: Result<
        Vec<(Key, LocaleValue)>,
        Error,
    >)
        requires
            old(strings).wf(),
            all_resolved(old(self).keys@),
        ensures
            final(strings).wf(),
            final(self).top_locale_name == old(self).top_locale_name,
            final(self).name == old(self).name,
            match spec_builder_keys(values_view(old(self).keys@), old(self).top_locale_name@, key_path@, old(strings)@) {
                Ok(p) => res is Ok && lvs_view(res->Ok_0@) == p.1 && final(strings)@ == p.2 && values_view(
                    final(self).keys@,
                ) == p.0 + values_view(old(self).keys@).skip(p.0.len() as int),
                Err(e) => res is Err && res->Err_0@ == e,
            },
    {
        let ghost vv = values_view(self.keys@);
        let ghost t0 = strings@;
        let ghost top = self.top_locale_name@;
        let mut out: Vec<(Key, LocaleValue)> = Vec::new();
        let mut i: usize = 0;
        assert(vv.take(0) =~= Seq::<(Seq<char>, ValueV)>::empty());
        assert(lvs_view(out@) =~= Seq::<(Seq<char>, LocaleValueV)>::empty());
        assert(values_view(self.keys@).skip(0) =~= vv);
        while i < self.keys.len()
            invariant
                i <= self.keys@.len(),
                self.keys@.len() == vv.len(),
                vv.len() == old(self).keys@.len(),
                vv == values_view(old(self).keys@),
                top == self.top_locale_name@,
                self.top_locale_name == old(self).top_locale_name,
                self.name == old(self).name,
                t0 == old(strings)@,
                strings.wf(),
                all_resolved(old(self).keys@),
                forall|j: int| i <= j < self.keys@.len() ==> #[trigger] self.keys@[j] == old(self).keys@[j],
                spec_builder_keys(vv.take(i as int), top, key_path@, t0) == Ok::<
                    (Seq<(Seq<char>, ValueV)>, Seq<(Seq<char>, LocaleValueV)>, Seq<Seq<char>>),
                    ErrV,
                >((values_view(self.keys@).take(i as int), lvs_view(out@), strings@)),
            decreases self.keys@.len() - i,
        {
            proof {
                assert(vv.take(i + 1).drop_last() =~= vv.take(i as int));
                assert(vv.take(i + 1).last() == vv[i as int]);
                assert(self.keys@[i as int] == old(self).keys@[i as int]);
                assert(fk_resolved(old(self).keys@[i as int].1@));
            }
            let ghost before_keys = self.keys@;
            let (k, mut v) = self.keys.remove(i);
            assert(vv[i as int] == (k@, v@));
            let ghost v0 = v@;
            v.reduce();
            let kp = kp_with(key_path, &k);
            let lv = match v.make_locale_value(&self.top_locale_name, &kp, strings) {
                Ok(lv) => lv,
                Err(e) => {
                    proof {
                        assert(v@ is Default);
                        assert(spec_reduce(v0) is Default);
                        assert(spec_builder_keys(vv.take(i + 1), top, key_path@, t0) == Err::<
                            (Seq<(Seq<char>, ValueV)>, Seq<(Seq<char>, LocaleValueV)>, Seq<Seq<char>>),
                            ErrV,
                        >(ErrV::ExplicitDefaultInDefault(push_path(key_path@, k@))));
                        lemma_builder_keys_err(vv, top, key_path@, t0, i as int + 1);
                    }
                    self.keys.insert(i, (k, v));
                    return Err(e);
                },
            };
            let ghost lvv = lv@;
            let ghost vw = v@;
            self.keys.insert(i, (k.copy(), v));
            let ghost before_out = out@;
            let (j, found) = find_slot(&out, k.name.as_str());
            let ghost m = lvs_view(out@);
            proof {
                lemma_lvs_slot(out@, k@, j as int, found);
                lemma_slot(m, k@, lvv, j as int, found);
                assert(lvv == LocaleValueV {
                    value: spec_get_keys(vw),
                    default_locale: top,
                    defaults: Seq::empty(),
                    subkeys: None,
                }) by {
                    assert(lvv.defaults =~= Seq::<(Seq<char>, Seq<char>)>::empty());
                }
            }
            if found {
                let _ = out.remove(j);
            }
            out.insert(j, (k, lv));
            proof {
                if found {
                    assert(lvs_view(out@) =~= m.update(j as int, (k@, lvv)));
                } else {
                    assert(lvs_view(out@) =~= m.insert(j as int, (k@, lvv)));
                }
                assert(values_view(self.keys@).take(i + 1) =~= values_view(before_keys).take(i as int).push(
                    (k@, vw),
                ));
                assert forall|jj: int| i + 1 <= jj < self.keys@.len() implies #[trigger] self.keys@[jj]
                    == old(self).keys@[jj] by {
                    assert(self.keys@[jj] == before_keys[jj]);
                }
            }
            i = i + 1;
        }
        proof {
            assert(vv.take(i as int) =~= vv);
            assert(values_view(self.keys@).take(i as int) =~= values_view(self.keys@));
            assert(values_view(old(self).keys@).skip(i as int) =~= Seq::<(Seq<char>, ValueV)>::empty());
            assert(values_view(self.keys@) =~= values_view(self.keys@) + Seq::<(Seq<char>, ValueV)>::empty());
        }
        Ok(out)
    }
}

proof fn lemma_builder_keys_err(vs: Seq<(Seq<char>, ValueV)>, top: Seq<char>, kp: KeyPathV, t: Seq<Seq<char>>, k: int)
    requires
        1 <= k <= vs.len(),
        spec_builder_keys(vs.take(k), top, kp, t) is Err,
    ensures
        spec_builder_keys(vs, top, kp, t) == spec_builder_keys(vs.take(k), top, kp, t),
    decreases vs.len() - k,
{
    if k < vs.len() {
        assert(vs.take(k + 1).drop_last() =~= vs.take(k));
        lemma_builder_keys_err(vs, top, kp, t, k + 1);
    } else {
        assert(vs.take(k) =~= vs);
    }
}

/// No key occurs twice.
pub open spec fn distinct_keys(k: Seq<(Seq<char>, LocaleValueV)>) -> bool {
    forall|i: int, j: int| 0 <= i < j < k.len() ==> k[i].0 != k[j].0
}

/// Whether one of the first `n` keys is named `name`.
pub open spec fn processed(k: Seq<(Seq<char>, LocaleValueV)>, n: int, name: Seq<char>) -> bool {
    exists|j: int| 0 <= j < n && #[trigger] k[j].0 == name
}

/// Every entry of the locale not yet merged is still resolved.
pub open spec fn unmerged_resolved(mine: Seq<(Key, ParsedValue)>, k: Seq<(Seq<char>, LocaleValueV)>, n: int) -> bool {
    forall|i: int| 0 <= i < mine.len() ==> processed(k, n, (#[trigger] mine[i]).0@) || fk_resolved(mine[i].1@)
}

/// The merge of one level: the keys of the default locale's level and this
/// locale's values there (see `merge_level`).
pub open spec fn level_merge_of(
    keys: Seq<(Key, LocaleValue)>,
    mine: Seq<(Key, ParsedValue)>,
    top: &Key,
    default_to: &DefaultTo,
    key_path: &KeyPath,
    suppress: bool,
    strings: Seq<Seq<char>>,
    warnings: Seq<Warning>,
) -> Result<LocaleMerge, ErrV> {
    merge_level(
        lvs_view(keys),
        values_view(mine),
        top@,
        default_to_view(*default_to),
        key_path@,
        suppress,
        strings,
        warnings_view(warnings),
    )
}

/// Merges one level of a locale into the default locale's level (see
/// `merge_level`).
#[verifier::rlimit(80)]
#[verifier::spinoff_prover]
fn merge_entries(
    mine: &mut Vec<(Key, ParsedValue)>,
    keys: &mut Vec<(Key, LocaleValue)>,
    top_locale: &Key,
    default_to: &DefaultTo,
    key_path: &KeyPath,
    strings: &mut StringIndexer,
    suppress_key_warnings: bool,
    warnings: &mut Vec<Warning>,
) -> (res: Result<(), Error>)
    requires
        old(strings).wf(),
        all_resolved(old(mine)@),
        distinct_keys(lvs_view(old(keys)@)),
        keys_wf(lvs_view(old(keys)@), old(keys)@.len() as int),
    ensures
        final(strings).wf(),
        match level_merge_of(
            old(keys)@,
            old(mine)@,
            top_locale,
            default_to,
            key_path,
            suppress_key_warnings,
            old(strings)@,
            old(warnings)@,
        ) {
            Ok(r) => res is Ok && lvs_view(final(keys)@) == r.keys && values_view(final(mine)@) == r.mine
                && final(strings)@ == r.strings && warnings_view(final(warnings)@) == r.warnings,
            Err(e) => res is Err && res->Err_0@ == e,
        },
    decreases old(keys)@,
{
    let ghost k0 = lvs_view(keys@);
    let ghost fb = default_to_view(*default_to);
    let ghost st0 = LocaleMerge { keys: k0, mine: values_view(mine@), strings: strings@, warnings: warnings_view(warnings@) };
    let ghost okeys = keys@;
    let implicit = match default_to {
        DefaultTo::Implicit(_) => true,
        DefaultTo::Explicit(_) => false,
    };
    proof {
        lemma_lvs_len(okeys);
        lemma_keys_wf_each(k0, k0.len() as int);
    }
    let mut n: usize = 0;
    while n < keys.len()
        invariant
            n <= keys@.len(),
            keys@.len() == k0.len(),
            okeys == old(keys)@,
            k0 == lvs_view(okeys),
            k0.len() == okeys.len(),
            st0 == (LocaleMerge {
                keys: k0,
                mine: values_view(old(mine)@),
                strings: old(strings)@,
                warnings: warnings_view(old(warnings)@),
            }),
            distinct_keys(k0),
            forall|j: int| 0 <= j < k0.len() ==> lv_wf(#[trigger] k0[j].1),
            fb == default_to_view(*default_to),
            implicit == !fb.0,
            strings.wf(),
            unmerged_resolved(mine@, k0, n as int),
            forall|j: int| n <= j < keys@.len() ==> #[trigger] keys@[j] == okeys[j],
            merge_pass(k0, st0, top_locale@, fb, key_path@, suppress_key_warnings, n as int) is Ok,
            ({
                let r = merge_pass(k0, st0, top_locale@, fb, key_path@, suppress_key_warnings, n as int)->Ok_0;
                &&& lvs_view(keys@) == r.keys
                &&& values_view(mine@) == r.mine
                &&& strings@ == r.strings
                &&& warnings_view(warnings@) == r.warnings
            }),
        decreases keys@.len() - n,
    {
        let ghost s = merge_pass(k0, st0, top_locale@, fb, key_path@, suppress_key_warnings, n as int)->Ok_0;
        proof {
            lemma_merge_pass_keys(k0, st0, top_locale@, fb, key_path@, suppress_key_warnings, n as int);
        }
        let ghost ka = keys@;
        let (kk, mut lv) = keys.remove(n);
        assert(lvs_view(ka)[n as int] == (kk@, lv@));
        assert(kk@ == k0[n as int].0);
        assert(lv == okeys[n as int].1);
        assert(lv@ == k0[n as int].1);
        let ghost a = mine@;
        let (j, found) = find_slot(&mine, kk.name.as_str());
        proof {
            lemma_values_slot(mine@, kk@, j as int, found);
            lemma_slot(s.mine, kk@, ValueV::Default, j as int, found);
        }
        if !found {
            if implicit {
                let ghost wb = warnings@;
                warnings.push(Warning::MissingKey { locale: top_locale.copy(), key_path: kp_with(key_path, &kk) });
                assert(warnings_view(warnings@) =~= warnings_view(wb).push(
                    WarnV::MissingKey { locale: top_locale@, key_path: push_path(key_path@, kk@) },
                ));
            }
            mine.insert(j, (kk.copy(), ParsedValue::Default));
            assert(values_view(mine@) =~= s.mine.insert(j as int, (kk@, ValueV::Default)));
        }
        let ghost b = mine@;
        let ghost mine1 = values_view(b);
        proof {
            assert forall|i: int| 0 <= i < b.len() implies processed(k0, n as int, (#[trigger] b[i]).0@)
                || fk_resolved(b[i].1@) by {
                if !found {
                    if i < j {
                        assert(b[i] == a[i]);
                    } else if i > j {
                        assert(b[i] == a[i - 1]);
                    }
                }
            }
            crate::builders::lemma_map_put_get_same(s.mine, kk@, ValueV::Default);
        }
        let (j2, found2) = find_slot(&mine, kk.name.as_str());
        proof {
            lemma_values_slot(mine@, kk@, j2 as int, found2);
            lemma_slot(mine1, kk@, ValueV::Default, j2 as int, found2);
            assert(map_get(mine1, kk@) is Some);
            assert(found2);
            assert(!processed(k0, n as int, kk@)) by {
                if processed(k0, n as int, kk@) {
                    let jj = choose|jj: int| 0 <= jj < n && #[trigger] k0[jj].0 == kk@;
                    assert(k0[jj].0 != k0[n as int].0);
                }
            }
            assert(b[j2 as int].0@ == kk@);
            assert(fk_resolved(b[j2 as int].1@));
        }
        let (k2, mut v) = mine.remove(j2);
        let ghost vb = v@;
        let ghost lb = lv@;
        let ghost tb = strings@;
        let ghost wb = warnings_view(warnings@);
        assert(map_get(mine1, kk@) == Some(vb));
        assert(lv_wf(lb));
        let kp = kp_with(key_path, &kk);
        proof {
            assert(decreases_to!(okeys => okeys[n as int]));
            assert(decreases_to!(okeys[n as int] => okeys[n as int].1));
        }
        let r = v.merge(&mut lv, top_locale, default_to, &kp, strings, suppress_key_warnings, warnings);
        proof {
            let w1 = if !found && !fb.0 {
                s.warnings.push(WarnV::MissingKey { locale: top_locale@, key_path: push_path(key_path@, kk@) })
            } else {
                s.warnings
            };
            assert(wb == w1);
        }
        match r {
            Err(e) => {
                proof {
                    lemma_merge_pass_err(k0, st0, top_locale@, fb, key_path@, suppress_key_warnings, n as int + 1, k0.len() as int);
                }
                return Err(e);
            },
            Ok(()) => {},
        }
        let ghost vv = v@;
        mine.insert(j2, (k2, v));
        proof {
            lemma_slot(mine1, kk@, vv, j2 as int, true);
            assert(mine@ =~= b.update(j2 as int, mine@[j2 as int]));
            assert(values_view(mine@) =~= mine1.update(j2 as int, (kk@, vv)));
        }
        keys.insert(n, (kk, lv));
        proof {
            assert(lvs_view(keys@) =~= s.keys.update(n as int, (k0[n as int].0, lv@)));
            let c = mine@;
            assert forall|i: int| 0 <= i < c.len() implies processed(k0, n + 1, (#[trigger] c[i]).0@)
                || fk_resolved(c[i].1@) by {
                if i == j2 {
                    assert(k0[n as int].0 == c[i].0@);
                } else {
                    assert(c[i] == b[i]);
                    if processed(k0, n as int, b[i].0@) {
                        let jj = choose|jj: int| 0 <= jj < n && #[trigger] k0[jj].0 == b[i].0@;
                        assert(k0[jj].0 == c[i].0@);
                    }
                }
            }
            assert forall|jj: int| n + 1 <= jj < keys@.len() implies #[trigger] keys@[jj] == okeys[jj] by {
                assert(keys@[jj] == ka[jj]);
            }
        }
        n = n + 1;
    }
    let ghost r = merge_pass(k0, st0, top_locale@, fb, key_path@, suppress_key_warnings, n as int)->Ok_0;
    if !suppress_key_warnings {
        let ghost w1 = warnings_view(warnings@);
        let ghost mv = values_view(mine@);
        let mut i: usize = 0;
        assert(mv.take(0) =~= Seq::<(Seq<char>, ValueV)>::empty());
        assert(w1 + Seq::<WarnV>::empty() =~= w1);
        while i < mine.len()
            invariant
                i <= mine@.len(),
                mv == values_view(mine@),
                mv.len() == mine@.len(),
                r.keys == lvs_view(keys@),
                warnings_view(warnings@) == w1 + surplus(r.keys, mv.take(i as int), top_locale@, key_path@),
            decreases mine@.len() - i,
        {
            proof {
                assert(mv.take(i + 1).drop_last() =~= mv.take(i as int));
                assert(mv.take(i + 1).last() == mv[i as int]);
                assert(mv[i as int].0 == mine@[i as int].0@);
            }
            let (j, found) = find_slot(keys, mine[i].0.name.as_str());
            proof {
                lemma_lvs_slot(keys@, mine@[i as int].0@, j as int, found);
                lemma_slot(r.keys, mine@[i as int].0@, vstd::pervasive::arbitrary::<LocaleValueV>(), j as int, found);
            }
            if !found {
                let ghost wb = warnings@;
                warnings.push(Warning::SurplusKey { locale: top_locale.copy(), key_path: kp_with(key_path, &mine[i].0) });
                assert(warnings_view(warnings@) =~= warnings_view(wb).push(
                    WarnV::SurplusKey { locale: top_locale@, key_path: push_path(key_path@, mv[i as int].0) },
                ));
            }
            i = i + 1;
        }
        assert(mv.take(i as int) =~= mv);
    }
    Ok(())
}

impl Locale {
    /// Merges this locale's values into the keys of the default locale
    /// (see `merge_level`).
    pub fn merge(
        &mut self,
        keys: &mut Vec<(Key, LocaleValue)>,
        top_locale: &Key,
        default_to: &DefaultTo,
        key_path: &KeyPath,
        strings: &mut StringIndexer,
        suppress_key_warnings: bool,
        warnings: &mut Vec<Warning>,
    ) -> (res: Result<(), Error>)
        requires
            old(strings).wf(),
            all_resolved(old(self).keys@),
            distinct_keys(lvs_view(old(keys)@)),
            keys_wf(lvs_view(old(keys)@), old(keys)@.len() as int),
        ensures
            final(strings).wf(),
            final(self).top_locale_name == old(self).top_locale_name,
            final(self).name == old(self).name,
            match level_merge_of(
                old(keys)@,
                old(self).keys@,
                top_locale,
                default_to,
                key_path,
                suppress_key_warnings,
                old(strings)@,
                old(warnings)@,
            ) {
                Ok(r) => res is Ok && lvs_view(final(keys)@) == r.keys && values_view(final(self).keys@) == r.mine
                    && final(strings)@ == r.strings && warnings_view(final(warnings)@) == r.warnings,
                Err(e) => res is Err && res->Err_0@ == e,
            },
    {
        merge_entries(&mut self.keys, keys, top_locale, default_to, key_path, strings, suppress_key_warnings, warnings)
    }
}

impl ParsedValue {
    /// Merges another locale's value of a key into the key's requirement
    /// (see `spec_merge_value`): the value is simplified; a key without
    /// nested keys takes it as `merge_plain` does; a key with nested keys
    /// merges its levels key by key, an explicit default counting as a
    /// level of explicit defaults; a value with nested keys for a key
    /// without, or a direct value for a key with nested keys, is a
    /// `SubKeyMissmatch` at `key_path`.
    pub fn merge(
        &mut self,
        keys: &mut LocaleValue,
        top_locale: &Key,
        default_to: &DefaultTo,
        key_path: &KeyPath,
        strings: &mut StringIndexer,
        suppress_key_warnings: bool,
        warnings: &mut Vec<Warning>,
    ) -> (res: Result<(), Error>)
        requires
            old(strings).wf(),
            fk_resolved(old(self)@),
            lv_wf(old(keys)@),
        ensures
            final(strings).wf(),
            match spec_merge_value(
                old(keys)@,
                old(self)@,
                top_locale@,
                default_to_view(*default_to),
                key_path@,
                suppress_key_warnings,
                old(strings)@,
                warnings_view(old(warnings)@),
            ) {
                Ok(m) => res is Ok && final(keys)@ == m.0 && final(self)@ == m.1 && final(strings)@ == m.2
                    && warnings_view(final(warnings)@) == m.3,
                Err(e) => res is Err && res->Err_0@ == e,
            },
        decreases *old(keys),
    {
        let ghost v0 = self@;
        let ghost lv0 = keys@;
        let ghost okeys = *keys;
        proof {
            lemma_reduce_sub(v0);
        }
        let nested = match &keys.subkeys {
            Some(_) => true,
            None => false,
        };
        if !nested {
            if self.reduces_to_subkeys() {
                return Err(Error::SubKeyMissmatch { locale: top_locale.copy(), key_path: key_path.copy() });
            }
            self.merge_plain(keys, top_locale.copy(), default_to, strings);
            proof {
                let p = spec_merge_plain(lv0, v0, top_locale@, default_to_view(*default_to).1, old(strings)@);
                assert(lv0.subkeys is None);
                assert(keys.subkeys is None);
                assert(fallback_key(*default_to)@ == default_to_view(*default_to).1);
                assert(keys@.value == p.0.value);
                assert(keys@.defaults == p.0.defaults);
                assert(keys@.default_locale == p.0.default_locale);
                assert(keys@ == p.0);
            }
            return Ok(());
        }
        self.reduce();
        let mut mine: Vec<(Key, ParsedValue)> = Vec::new();
        let mut ks = keys.subkeys.take().unwrap();
        let ghost ksv = lvs_view(ks@);
        proof {
            lemma_lvs_len(ks@);
            assert(lv0.subkeys == Some(lv_entries(ks@)));
            lemma_lv_entries(ks@);
            assert(decreases_to!(okeys => okeys.subkeys));
            assert(decreases_to!(okeys.subkeys => okeys.subkeys->Some_0));
            assert(decreases_to!(okeys.subkeys->Some_0 => okeys.subkeys->Some_0@));
        }
        let mut taken = ParsedValue::Default;
        std::mem::swap(self, &mut taken);
        match taken {
            ParsedValue::Subkeys(es) => {
                mine = es;
                proof {
                    lemma_entries_view(mine@);
                    lemma_resolved_entries(view_entries(mine@));
                    assert forall|q: int| 0 <= q < mine@.len() implies fk_resolved(#[trigger] mine@[q].1@) by {
                        assert(values_view(mine@)[q] == (mine@[q].0@, mine@[q].1@));
                        assert(view_entries(mine@)[q].1 == mine@[q].1@);
                    }
                }
            },
            ParsedValue::Default => {
                let mut i: usize = 0;
                while i < ks.len()
                    invariant
                        i <= ks@.len(),
                        ksv == lvs_view(ks@),
                        ksv.len() == ks@.len(),
                        values_view(mine@) == default_entries(ksv).take(i as int),
                        all_resolved(mine@),
                    decreases ks@.len() - i,
                {
                    let ghost before = mine@;
                    mine.push((ks[i].0.copy(), ParsedValue::Default));
                    proof {
                        assert(values_view(mine@) =~= values_view(before).push((ksv[i as int].0, ValueV::Default)));
                        assert(default_entries(ksv).take(i + 1) =~= default_entries(ksv).take(i as int).push(
                            (ksv[i as int].0, ValueV::Default),
                        ));
                        assert forall|q: int| 0 <= q < mine@.len() implies fk_resolved(#[trigger] mine@[q].1@) by {
                            if q < before.len() {
                                assert(mine@[q] == before[q]);
                            }
                        }
                    }
                    i = i + 1;
                }
                assert(default_entries(ksv).take(i as int) =~= default_entries(ksv));
            },
            other => {
                *self = other;
                keys.subkeys = Some(ks);
                return Err(Error::SubKeyMissmatch { locale: top_locale.copy(), key_path: key_path.copy() });
            },
        }
        let r = merge_entries(&mut mine, &mut ks, top_locale, default_to, key_path, strings, suppress_key_warnings, warnings);
        let ghost kv = lvs_view(ks@);
        proof {
            lemma_lv_entries(ks@);
        }
        let ghost mv = mine@;
        proof {
            lemma_entries_view(mv);
        }
        *self = ParsedValue::Subkeys(mine);
        keys.subkeys = Some(ks);
        r
    }
}

proof fn lemma_merge_pass_keys(
    k0: Seq<(Seq<char>, LocaleValueV)>,
    st0: LocaleMerge,
    top: Seq<char>,
    fb: (bool, Seq<char>),
    kp: KeyPathV,
    sup: bool,
    n: int,
)
    requires
        st0.keys == k0,
        0 <= n <= k0.len(),
    ensures
        merge_pass(k0, st0, top, fb, kp, sup, n) is Ok ==> {
            let r = merge_pass(k0, st0, top, fb, kp, sup, n)->Ok_0;
            &&& r.keys.len() == k0.len()
            &&& forall|j: int| 0 <= j < k0.len() ==> (#[trigger] r.keys[j]).0 == k0[j].0
            &&& forall|j: int| n <= j < k0.len() ==> #[trigger] r.keys[j] == k0[j]
        },
    decreases n,
{
    if n > 0 {
        lemma_merge_pass_keys(k0, st0, top, fb, kp, sup, n - 1);
    }
}

/// Once a step of `merge_pass` fails, the whole pass fails the same way.
proof fn lemma_merge_pass_err(
    k0: Seq<(Seq<char>, LocaleValueV)>,
    st0: LocaleMerge,
    top: Seq<char>,
    fb: (bool, Seq<char>),
    kp: KeyPathV,
    sup: bool,
    n: int,
    m: int,
)
    requires
        1 <= n <= m <= k0.len(),
        merge_pass(k0, st0, top, fb, kp, sup, n) is Err,
    ensures
        merge_pass(k0, st0, top, fb, kp, sup, m) == merge_pass(k0, st0, top, fb, kp, sup, n),
    decreases m - n,
{
    if m > n {
        lemma_merge_pass_err(k0, st0, top, fb, kp, sup, n, m - 1);
    }
}

proof fn lemma_lvs_len(k: Seq<(Key, LocaleValue)>)
    ensures
        lvs_view(k).len() == k.len(),
{
}

proof fn lemma_keys_wf_each(ks: Seq<(Seq<char>, LocaleValueV)>, n: int)
    requires
        0 <= n <= ks.len(),
        keys_wf(ks, n),
    ensures
        forall|j: int| 0 <= j < n ==> lv_wf(#[trigger] ks[j].1),
    decreases n,
{
    if n > 0 {
        lemma_keys_wf_each(ks, n - 1);
    }
}

proof fn lemma_keys_wf_flat(ks: Seq<(Seq<char>, LocaleValueV)>, n: int)
    requires
        0 <= n <= ks.len(),
        forall|j: int| 0 <= j < ks.len() ==> (#[trigger] ks[j].1).subkeys is None,
    ensures
        keys_wf(ks, n),
    decreases n,
{
    if n > 0 {
        lemma_keys_wf_flat(ks, n - 1);
        assert(ks[n - 1].1.subkeys is None);
        assert(lv_wf(ks[n - 1].1));
    }
}

proof fn lemma_entries_view(s: Seq<(Key, ParsedValue)>)
    ensures
        view_entries(s) == values_view(s),
    decreases s.len(),
{
    if s.len() > 0 {
        lemma_entries_view(s.drop_last());
        assert(values_view(s) =~= values_view(s.drop_last()).push((s.last().0@, s.last().1@)));
    } else {
        assert(values_view(s) =~= Seq::<(Seq<char>, ValueV)>::empty());
    }
}

proof fn lemma_lv_entries(s: Seq<(Key, LocaleValue)>)
    ensures
        lv_entries(s) == lvs_view(s),
    decreases s.len(),
{
    if s.len() > 0 {
        lemma_lv_entries(s.drop_last());
        assert(lvs_view(s) =~= lvs_view(s.drop_last()).push((s.last().0@, s.last().1@)));
    } else {
        assert(lvs_view(s) =~= Seq::<(Seq<char>, LocaleValueV)>::empty());
    }
}

proof fn lemma_resolved_entries(es: Seq<(Seq<char>, ValueV)>)
    requires
        fk_resolved_entries(es),
    ensures
        forall|i: int| 0 <= i < es.len() ==> fk_resolved(#[trigger] es[i].1),
    decreases es.len(),
{
    if es.len() > 0 {
        lemma_resolved_entries(es.drop_last());
        assert forall|i: int| 0 <= i < es.len() implies fk_resolved(#[trigger] es[i].1) by {
            if i < es.len() - 1 {
                assert(es.drop_last()[i] == es[i]);
            }
        }
    }
}

/// A simplified value is a nested level only when the value (or what its
/// foreign key stands for) is one, and its keys are then still resolved.
proof fn lemma_reduce_sub(v: ValueV)
    requires
        fk_resolved(v),
    ensures
        spec_reduce(v) is Subkeys ==> fk_resolved(spec_reduce(v)),
        spec_reduce(v) is Subkeys <==> reduces_to_sub(v),
    decreases v,
{
    match v {
        ValueV::ForeignKey(FkV::Resolved(b)) => lemma_reduce_sub(*b),
        ValueV::Bloc(vs) => {
            crate::reduce::law_reduce_into_seq_keeps_flat(vs, Seq::empty());
            let out = crate::reduce::spec_reduce_into_seq(vs, Seq::empty());
            if out.len() == 1 {
                assert(crate::reduce::flat_piece(out[0]));
            }
        },
        _ => {},
    }
}

/// Whether simplifying the value gives a nested level.
pub open spec fn reduces_to_sub(v: ValueV) -> bool
    decreases v,
{
    match v {
        ValueV::Subkeys(_) => true,
        ValueV::ForeignKey(FkV::Resolved(b)) => reduces_to_sub(*b),
        _ => false,
    }
}

impl ParsedValue {
    /// Whether simplifying this value gives a nested level.
    fn reduces_to_subkeys(&self) -> (res: bool)
        ensures
            res == reduces_to_sub(self@),
        decreases self,
    {
        match self {
            ParsedValue::Subkeys(_) => true,
            ParsedValue::ForeignKey(ForeignKey::Resolved(b)) => b.reduces_to_subkeys(),
            _ => false,
        }
    }
}

/// View of a locale.
pub struct LocaleV {
    pub top: Seq<char>,
    pub name: Seq<char>,
    pub keys: Seq<(Seq<char>, ValueV)>,
    pub strings: Seq<Seq<char>>,
    pub string_count: nat,
}

impl View for Locale {
    type V = LocaleV;

    open spec fn view(&self) -> LocaleV {
        LocaleV {
            top: self.top_locale_name@,
            name: self.name@,
            keys: values_view(self.keys@),
            strings: strings_view(self.strings@),
            string_count: self.top_locale_string_count as nat,
        }
    }
}

pub open spec fn locales_v(ls: Seq<Locale>) -> Seq<LocaleV> {
    ls.map_values(|l: Locale| l@)
}

pub open spec fn top_names(ls: Seq<LocaleV>) -> Seq<Seq<char>> {
    ls.map_values(|l: LocaleV| l.top)
}

/// The identifiers of the named locales, as a map sorted by name (a later
/// name replaces an earlier equal one), or the error for the first name
/// that is not a valid locale.
pub open spec fn spec_locales_to_icu(names: Seq<Seq<char>>) -> Result<Seq<(Seq<char>, LocaleIdV)>, ErrV>
    decreases names.len(),
{
    if names.len() == 0 {
        Ok(Seq::empty())
    } else {
        match spec_locales_to_icu(names.drop_last()) {
            Err(e) => Err(e),
            Ok(m) => match parsed_locale(names.last()) {
                Ok(l) => Ok(map_put(m, names.last(), l)),
                Err(t) => Err(ErrV::InvalidLocale { locale: names.last(), err: t }),
            },
        }
    }
}

proof fn lemma_icu_err(names: Seq<Seq<char>>, k: int)
    requires
        1 <= k <= names.len(),
        spec_locales_to_icu(names.take(k)) is Err,
    ensures
        spec_locales_to_icu(names) == spec_locales_to_icu(names.take(k)),
    decreases names.len() - k,
{
    if k < names.len() {
        assert(names.take(k + 1).drop_last() =~= names.take(k));
        lemma_icu_err(names, k + 1);
    } else {
        assert(names.take(k) =~= names);
    }
}

/// A map found by `id_of` for each name stored in it.
proof fn lemma_id_of_stored(m: Seq<(Seq<char>, LocaleIdV)>, k: Seq<char>)
    requires
        map_get(m, k) is Some,
    ensures
        id_of(m, k) is Some,
{
    lemma_map_get_key(m, k);
    lemma_id_of_contains(m, k);
}

proof fn lemma_id_of_contains(m: Seq<(Seq<char>, LocaleIdV)>, k: Seq<char>)
    requires
        keys_of(m).contains(k),
    ensures
        id_of(m, k) is Some,
    decreases m.len(),
{
    if m[0].0 != k {
        let j = choose|j: int| 0 <= j < keys_of(m).len() && keys_of(m)[j] == k;
        assert(keys_of(m.drop_first())[j - 1] == k);
        lemma_id_of_contains(m.drop_first(), k);
    }
}

/// Every name read is stored in the map of identifiers.
proof fn lemma_icu_has_names(names: Seq<Seq<char>>)
    ensures
        spec_locales_to_icu(names) matches Ok(m) ==> forall|j: int|
            0 <= j < names.len() ==> #[trigger] map_get(m, names[j]) is Some,
    decreases names.len(),
{
    if names.len() > 0 {
        let init = names.drop_last();
        lemma_icu_has_names(init);
        if let Ok(m) = spec_locales_to_icu(names) {
            let m0 = spec_locales_to_icu(init)->Ok_0;
            let l = parsed_locale(names.last())->Ok_0;
            assert forall|j: int| 0 <= j < names.len() implies #[trigger] map_get(m, names[j]) is Some by {
                if names[j] == names.last() {
                    lemma_map_put_get_same(m0, names.last(), l);
                } else {
                    lemma_map_put_get_other(m0, names.last(), l, names[j]);
                    assert(init[j] == names[j]);
                }
            }
        }
    }
}

/// The identifiers of the locales, by name (see `spec_locales_to_icu`).
pub fn locales_to_icu(locales: &Vec<Locale>) -> (res: Result<Vec<(Key, LocaleId)>, Error>)
    ensures
        match spec_locales_to_icu(top_names(locales_v(locales@))) {
            Ok(m) => res is Ok && locales_view(res->Ok_0@) == m,
            Err(e) => res is Err && res->Err_0@ == e,
        },
{
    let ghost names = top_names(locales_v(locales@));
    let mut out: Vec<(Key, LocaleId)> = Vec::new();
    let mut i: usize = 0;
    assert(names.take(0) =~= Seq::<Seq<char>>::empty());
    assert(locales_view(out@) =~= Seq::<(Seq<char>, LocaleIdV)>::empty());
    while i < locales.len()
        invariant
            i <= locales@.len(),
            names == top_names(locales_v(locales@)),
            spec_locales_to_icu(names.take(i as int)) == Ok::<Seq<(Seq<char>, LocaleIdV)>, ErrV>(
                locales_view(out@),
            ),
        decreases locales@.len() - i,
    {
        let name = &locales[i].top_locale_name;
        proof {
            assert(names.take(i + 1).drop_last() =~= names.take(i as int));
            assert(names.take(i + 1).last() == name@);
        }
        match LocaleId::parse(name.name.as_str()) {
            Err(t) => {
                let e = Error::InvalidLocale { locale: to_owned(name.name.as_str()), err: t };
                proof {
                    lemma_icu_err(names, i as int + 1);
                }
                return Err(e);
            },
            Ok(l) => {
                let ghost lv = l@;
                let (j, found) = find_slot(&out, name.name.as_str());
                let ghost m = locales_view(out@);
                proof {
                    assert(out@.map_values(|p: (Key, LocaleId)| p.0@) =~= keys_of(m));
                    lemma_slot(m, name@, lv, j as int, found);
                }
                if found {
                    let _ = out.remove(j);
                }
                out.insert(j, (name.copy(), l));
                proof {
                    if found {
                        assert(locales_view(out@) =~= m.update(j as int, (name@, lv)));
                    } else {
                        assert(locales_view(out@) =~= m.insert(j as int, (name@, lv)));
                    }
                }
            },
        }
        i = i + 1;
    }
    assert(names.take(i as int) =~= names);
    Ok(out)
}

/// The default locale's builder keys are stored in increasing order of
/// names, and it keeps one value per key.
proof fn lemma_builder_keys_shape(vs: Seq<(Seq<char>, ValueV)>, top: Seq<char>, kp: KeyPathV, t: Seq<Seq<char>>)
    ensures
        spec_builder_keys(vs, top, kp, t) matches Ok(p) ==> p.0.len() == vs.len() && sorted_names(p.1),
    decreases vs.len(),
{
    if vs.len() > 0 {
        lemma_builder_keys_shape(vs.drop_last(), top, kp, t);
        if let Ok(p) = spec_builder_keys(vs.drop_last(), top, kp, t) {
            let iv = index_value(spec_reduce(vs.last().1), p.2);
            lemma_map_put_sorted(
                p.1,
                vs.last().0,
                LocaleValueV { value: spec_get_keys(iv.0), default_locale: top, defaults: Seq::empty(), subkeys: None },
            );
        }
    }
}

/// One more locale merged into the default locale's keys: its fallback
/// found (see `spec_locale_fallback`), its values merged with a fresh
/// string table (see `merge_level`).
pub open spec fn check_one(
    keys: Seq<(Seq<char>, LocaleValueV)>,
    l: LocaleV,
    warnings: Seq<WarnV>,
    icu: Seq<(Seq<char>, LocaleIdV)>,
    ext: Seq<(Seq<char>, Seq<char>)>,
    default_top: Seq<char>,
    kp: KeyPathV,
    suppress: bool,
) -> Result<(Seq<(Seq<char>, LocaleValueV)>, LocaleV, Seq<WarnV>), ErrV> {
    let fb = spec_locale_fallback(ext, icu, default_top, l.top, suppress);
    match merge_level(keys, l.keys, l.top, fb, kp, suppress, Seq::empty(), warnings) {
        Err(e) => Err(e),
        Ok(r) => Ok(
            (
                r.keys,
                LocaleV { top: l.top, name: l.name, keys: r.mine, strings: r.strings, string_count: r.strings.len() },
                r.warnings,
            ),
        ),
    }
}

/// The locales after the default one merged in, in order (see
/// `check_one`); the first error stops.
pub open spec fn check_others(
    keys: Seq<(Seq<char>, LocaleValueV)>,
    warnings: Seq<WarnV>,
    ls: Seq<LocaleV>,
    icu: Seq<(Seq<char>, LocaleIdV)>,
    ext: Seq<(Seq<char>, Seq<char>)>,
    default_top: Seq<char>,
    kp: KeyPathV,
    suppress: bool,
) -> Result<(Seq<(Seq<char>, LocaleValueV)>, Seq<LocaleV>, Seq<WarnV>), ErrV>
    decreases ls.len(),
{
    if ls.len() == 0 {
        Ok((keys, Seq::empty(), warnings))
    } else {
        match check_others(keys, warnings, ls.drop_last(), icu, ext, default_top, kp, suppress) {
            Err(e) => Err(e),
            Ok(p) => match check_one(p.0, ls.last(), p.2, icu, ext, default_top, kp, suppress) {
                Err(e) => Err(e),
                Ok(o) => Ok((o.0, p.1.push(o.1), o.2)),
            },
        }
    }
}

/// The key path at the top of a namespace, or of the locales.
pub open spec fn root_path(namespace: Option<Key>) -> KeyPathV {
    KeyPathV {
        namespace: match namespace {
            Some(k) => Some(k@),
            None => None,
        },
        path: Seq::empty(),
    }
}

/// The locales of one namespace (or all of them) checked: every name read
/// as a locale identifier, the first locale made the default one (see
/// `spec_builder_keys`), then every other locale merged in (see
/// `check_others`). The result is the keys, the locales and the warnings.
pub open spec fn spec_check_locales_inner(
    ls: Seq<LocaleV>,
    kp: KeyPathV,
    ext: Seq<(Seq<char>, Seq<char>)>,
    suppress: bool,
    warnings: Seq<WarnV>,
) -> Result<(Seq<(Seq<char>, LocaleValueV)>, Seq<LocaleV>, Seq<WarnV>), ErrV> {
    match spec_locales_to_icu(top_names(ls)) {
        Err(e) => Err(e),
        Ok(icu) => {
            let d = ls[0];
            match spec_builder_keys(d.keys, d.top, kp, Seq::empty()) {
                Err(e) => Err(e),
                Ok(p) => {
                    let d1 = LocaleV { top: d.top, name: d.name, keys: p.0, strings: p.2, string_count: p.2.len() };
                    match check_others(p.1, warnings, ls.skip(1), icu, ext, d.top, kp, suppress) {
                        Err(e) => Err(e),
                        Ok(o) => Ok((o.0, seq![d1] + o.1, o.2)),
                    }
                },
            }
        },
    }
}

/// Checks the locales of one namespace (or all of them), the first being
/// the default locale (see `spec_check_locales_inner`); `extensions` holds
/// the declared inheritances as a map sorted by locale.
#[verifier::rlimit(80)]
#[verifier::spinoff_prover]
pub fn check_locales_inner(
    locales: &mut Vec<Locale>,
    namespace: Option<Key>,
    extensions: &Vec<(Key, Key)>,
    suppress_key_warnings: bool,
    warnings: &mut Vec<Warning>,
) -> (res: Result<Vec<(Key, LocaleValue)>, Error>)
    requires
        old(locales)@.len() > 0,
        forall|i: int| 0 <= i < old(locales)@.len() ==> all_resolved(#[trigger] old(locales)@[i].keys@),
    ensures
        match spec_check_locales_inner(
            locales_v(old(locales)@),
            root_path(namespace),
            pairs_of_keys(extensions@),
            suppress_key_warnings,
            warnings_view(old(warnings)@),
        ) {
            Ok(o) => res is Ok && lvs_view(res->Ok_0@) == o.0 && locales_v(final(locales)@) == o.1 && warnings_view(
                final(warnings)@,
            ) == o.2,
            Err(e) => res is Err && res->Err_0@ == e,
        },
{
    let ghost ls = locales_v(locales@);
    let ghost ext = pairs_of_keys(extensions@);
    let ghost w0 = warnings_view(warnings@);
    let icu = match locales_to_icu(locales) {
        Ok(m) => m,
        Err(e) => {
            return Err(e);
        },
    };
    let ghost icuv = locales_view(icu@);
    proof {
        lemma_icu_has_names(top_names(ls));
    }
    let key_path = KeyPath::new(namespace);
    assert(key_path@ == root_path(namespace)) by {
        assert(key_path@.path =~= Seq::<Seq<char>>::empty());
    }
    let mut strings = StringIndexer::new();
    let mut d = locales.remove(0);
    assert(d@ == ls[0]);
    let ghost dkeys0 = d@.keys;
    proof {
        lemma_builder_keys_shape(dkeys0, d@.top, key_path@, Seq::empty());
    }
    let mut keys = match d.make_builder_keys(&key_path, &mut strings) {
        Ok(k) => k,
        Err(e) => {
            return Err(e);
        },
    };
    let ghost p = spec_builder_keys(dkeys0, d@.top, key_path@, Seq::empty())->Ok_0;
    d.strings = strings.get_strings();
    d.top_locale_string_count = d.strings.len();
    proof {
        assert(d@.keys =~= p.0) by {
            assert(dkeys0.skip(p.0.len() as int) =~= Seq::<(Seq<char>, ValueV)>::empty());
            assert(p.0 + Seq::<(Seq<char>, ValueV)>::empty() =~= p.0);
        }
        lemma_sorted_distinct(p.1);
        lemma_builder_keys_flat(dkeys0, d@.top, key_path@, Seq::empty());
    }
    let default_top = d.top_locale_name.copy();
    locales.insert(0, d);
    let ghost others = ls.skip(1);
    let mut i: usize = 1;
    proof {
        assert(others.take(0) =~= Seq::<LocaleV>::empty());
        assert(locales_v(locales@).subrange(1, 1) =~= Seq::<LocaleV>::empty());
    }
    while i < locales.len()
        invariant
            1 <= i <= locales@.len(),
            locales@.len() == ls.len(),
            others == ls.skip(1),
            ls == locales_v(old(locales)@),
            default_top@ == ls[0].top,
            key_path@ == root_path(namespace),
            ext == pairs_of_keys(extensions@),
            icuv == locales_view(icu@),
            spec_locales_to_icu(top_names(ls)) == Ok::<Seq<(Seq<char>, LocaleIdV)>, ErrV>(icuv),
            forall|j: int| 0 <= j < ls.len() ==> #[trigger] map_get(icuv, top_names(ls)[j]) is Some,
            forall|j: int| i <= j < locales@.len() ==> #[trigger] locales@[j] == old(locales)@[j],
            forall|j: int| 0 <= j < old(locales)@.len() ==> all_resolved(#[trigger] old(locales)@[j].keys@),
            locales_v(locales@)[0] == (LocaleV {
                top: ls[0].top,
                name: ls[0].name,
                keys: p.0,
                strings: p.2,
                string_count: p.2.len(),
            }),
            distinct_keys(lvs_view(keys@)),
            all_flat(lvs_view(keys@)),
            w0 == warnings_view(old(warnings)@),
            spec_builder_keys(ls[0].keys, ls[0].top, key_path@, Seq::empty()) == Ok::<
                (Seq<(Seq<char>, ValueV)>, Seq<(Seq<char>, LocaleValueV)>, Seq<Seq<char>>),
                ErrV,
            >(p),
            check_others(p.1, w0, others.take(i - 1), icuv, ext, ls[0].top, key_path@, suppress_key_warnings) == Ok::<
                (Seq<(Seq<char>, LocaleValueV)>, Seq<LocaleV>, Seq<WarnV>),
                ErrV,
            >((lvs_view(keys@), locales_v(locales@).subrange(1, i as int), warnings_view(warnings@))),
        decreases locales@.len() - i,
    {
        let ghost before = locales@;
        let ghost kv0 = lvs_view(keys@);
        let ghost wv0 = warnings_view(warnings@);
        let mut l = locales.remove(i);
        assert(l == old(locales)@[i as int]);
        assert(l@ == ls[i as int]);
        assert(top_names(ls)[i as int] == l@.top);
        proof {
            lemma_id_of_stored(icuv, l@.top);
        }
        let top = l.top_locale_name.copy();
        let default_to = get_locale_fallback(extensions, &icu, &default_top, &top, suppress_key_warnings);
        let mut s = StringIndexer::new();
        proof {
            lemma_keys_wf_flat(kv0, kv0.len() as int);
            lemma_lvs_len(keys@);
            assert(others.take(i as int).drop_last() =~= others.take(i - 1));
            assert(others.take(i as int).last() == ls[i as int]);
        }
        match l.merge(&mut keys, &top, &default_to, &key_path, &mut s, suppress_key_warnings, warnings) {
            Err(e) => {
                proof {
                    let prev = check_others(p.1, w0, others.take(i - 1), icuv, ext, ls[0].top, key_path@, suppress_key_warnings)->Ok_0;
                    assert(prev.0 == kv0 && prev.2 == wv0);
                    assert(check_one(kv0, ls[i as int], wv0, icuv, ext, ls[0].top, key_path@, suppress_key_warnings) == Err::<
                        (Seq<(Seq<char>, LocaleValueV)>, LocaleV, Seq<WarnV>),
                        ErrV,
                    >(e@));
                    assert(check_others(p.1, w0, others.take(i as int), icuv, ext, ls[0].top, key_path@, suppress_key_warnings) is Err);
                    lemma_check_others_err(p.1, w0, others, icuv, ext, ls[0].top, key_path@, suppress_key_warnings, i as int);
                    assert(check_others(p.1, w0, others, icuv, ext, ls[0].top, key_path@, suppress_key_warnings) == Err::<
                        (Seq<(Seq<char>, LocaleValueV)>, Seq<LocaleV>, Seq<WarnV>),
                        ErrV,
                    >(e@));
                    assert(spec_builder_keys(ls[0].keys, ls[0].top, key_path@, Seq::empty()) == Ok::<
                        (Seq<(Seq<char>, ValueV)>, Seq<(Seq<char>, LocaleValueV)>, Seq<Seq<char>>),
                        ErrV,
                    >(p));
                }
                return Err(e);
            },
            Ok(()) => {},
        }
        l.strings = s.get_strings();
        l.top_locale_string_count = l.strings.len();
        let ghost lnew = l@;
        locales.insert(i, l);
        proof {
            let st0 = LocaleMerge { keys: kv0, mine: ls[i as int].keys, strings: Seq::empty(), warnings: wv0 };
            lemma_merge_pass_keys(kv0, st0, top@, default_to_view(default_to), key_path@, suppress_key_warnings, kv0.len() as int);
            lemma_merge_pass_flat(kv0, st0, top@, default_to_view(default_to), key_path@, suppress_key_warnings, kv0.len() as int);
            let o = check_one(kv0, ls[i as int], wv0, icuv, ext, ls[0].top, key_path@, suppress_key_warnings)->Ok_0;
            assert(lnew == o.1);
            assert(locales_v(locales@).subrange(1, i + 1) =~= locales_v(before).subrange(1, i as int).push(lnew));
            assert(locales_v(locales@)[0] == locales_v(before)[0]);
            assert forall|j: int| i + 1 <= j < locales@.len() implies #[trigger] locales@[j] == old(locales)@[j] by {
                assert(locales@[j] == before[j]);
            }
        }
        i = i + 1;
    }
    proof {
        assert(others.take(i - 1) =~= others);
        assert(locales_v(locales@) =~= seq![locales_v(locales@)[0]] + locales_v(locales@).subrange(1, i as int));
    }
    Ok(keys)
}

/// After `merge_pass`, the locale has a value for each key merged.
proof fn lemma_merge_pass_covers(
    k0: Seq<(Seq<char>, LocaleValueV)>,
    st0: LocaleMerge,
    top: Seq<char>,
    fb: (bool, Seq<char>),
    kp: KeyPathV,
    sup: bool,
    n: int,
)
    requires
        st0.keys == k0,
        0 <= n <= k0.len(),
        merge_pass(k0, st0, top, fb, kp, sup, n) is Ok,
    ensures
        forall|j: int|
            0 <= j < n ==> map_get(merge_pass(k0, st0, top, fb, kp, sup, n)->Ok_0.mine, #[trigger] k0[j].0) is Some,
    decreases n,
{
    if n > 0 {
        lemma_merge_pass_covers(k0, st0, top, fb, kp, sup, n - 1);
        let s = merge_pass(k0, st0, top, fb, kp, sup, n - 1)->Ok_0;
        let k = k0[n - 1].0;
        let missing = map_get(s.mine, k) is None;
        let mine1 = if missing {
            map_put(s.mine, k, ValueV::Default)
        } else {
            s.mine
        };
        let w1 = if missing && !fb.0 {
            s.warnings.push(WarnV::MissingKey { locale: top, key_path: push_path(kp, k) })
        } else {
            s.warnings
        };
        let m = spec_merge_value(k0[n - 1].1, map_get(mine1, k)->0, top, fb, push_path(kp, k), sup, s.strings, w1)->Ok_0;
        assert(merge_pass(k0, st0, top, fb, kp, sup, n)->Ok_0.mine == map_put(mine1, k, m.1));
        assert forall|j: int| 0 <= j < n implies map_get(map_put(mine1, k, m.1), #[trigger] k0[j].0) is Some by {
            if k0[j].0 == k {
                lemma_map_put_get_same(mine1, k, m.1);
            } else {
                lemma_map_put_get_other(mine1, k, m.1, k0[j].0);
                if missing {
                    lemma_map_put_get_other(s.mine, k, ValueV::Default, k0[j].0);
                }
                assert(map_get(s.mine, k0[j].0) is Some);
            }
        }
    }
}

/// Once merging one locale fails, merging all of them fails the same way.
proof fn lemma_check_others_err(
    keys: Seq<(Seq<char>, LocaleValueV)>,
    w: Seq<WarnV>,
    ls: Seq<LocaleV>,
    icu: Seq<(Seq<char>, LocaleIdV)>,
    ext: Seq<(Seq<char>, Seq<char>)>,
    dt: Seq<char>,
    kp: KeyPathV,
    sup: bool,
    k: int,
)
    requires
        1 <= k <= ls.len(),
        check_others(keys, w, ls.take(k), icu, ext, dt, kp, sup) is Err,
    ensures
        check_others(keys, w, ls, icu, ext, dt, kp, sup) == check_others(keys, w, ls.take(k), icu, ext, dt, kp, sup),
    decreases ls.len() - k,
{
    if k < ls.len() {
        assert(ls.take(k + 1).drop_last() =~= ls.take(k));
        lemma_check_others_err(keys, w, ls, icu, ext, dt, kp, sup, k + 1);
    } else {
        assert(ls.take(k) =~= ls);
    }
}

/// Merging more locales keeps the names of the keys, in place, and leaves
/// each merged locale with a value for every key.
proof fn lemma_check_others(
    keys: Seq<(Seq<char>, LocaleValueV)>,
    w: Seq<WarnV>,
    ls: Seq<LocaleV>,
    icu: Seq<(Seq<char>, LocaleIdV)>,
    ext: Seq<(Seq<char>, Seq<char>)>,
    dt: Seq<char>,
    kp: KeyPathV,
    sup: bool,
)
    requires
        check_others(keys, w, ls, icu, ext, dt, kp, sup) is Ok,
    ensures
        ({
            let c = check_others(keys, w, ls, icu, ext, dt, kp, sup)->Ok_0;
            &&& c.0.len() == keys.len()
            &&& forall|j: int| 0 <= j < keys.len() ==> (#[trigger] c.0[j]).0 == keys[j].0
            &&& c.1.len() == ls.len()
            &&& forall|i: int, j: int|
                0 <= i < ls.len() && 0 <= j < keys.len() ==> map_get(#[trigger] c.1[i].keys, #[trigger] keys[j].0)
                    is Some
        }),
    decreases ls.len(),
{
    if ls.len() > 0 {
        lemma_check_others(keys, w, ls.drop_last(), icu, ext, dt, kp, sup);
        let p = check_others(keys, w, ls.drop_last(), icu, ext, dt, kp, sup)->Ok_0;
        let l = ls.last();
        let fb = spec_locale_fallback(ext, icu, dt, l.top, sup);
        let st0 = LocaleMerge { keys: p.0, mine: l.keys, strings: Seq::empty(), warnings: p.2 };
        lemma_merge_pass_keys(p.0, st0, l.top, fb, kp, sup, p.0.len() as int);
        lemma_merge_pass_covers(p.0, st0, l.top, fb, kp, sup, p.0.len() as int);
        let r = merge_pass(p.0, st0, l.top, fb, kp, sup, p.0.len() as int)->Ok_0;
        let c = check_others(keys, w, ls, icu, ext, dt, kp, sup)->Ok_0;
        assert(c.0 == r.keys);
        assert(c.1 == p.1.push(check_one(p.0, l, p.2, icu, ext, dt, kp, sup)->Ok_0.1));
        assert forall|i: int, j: int| 0 <= i < ls.len() && 0 <= j < keys.len() implies map_get(
            #[trigger] c.1[i].keys,
            #[trigger] keys[j].0,
        ) is Some by {
            if i == ls.len() - 1 {
                assert(c.1[i].keys == r.mine);
                assert(p.0[j].0 == keys[j].0);
                assert(map_get(r.mine, p.0[j].0) is Some);
            } else {
                assert(c.1[i] == p.1[i]);
            }
        }
    }
}

/// All requirements of a level are plain: no key holds nested keys.
pub open spec fn all_flat(ks: Seq<(Seq<char>, LocaleValueV)>) -> bool {
    forall|j: int| 0 <= j < ks.len() ==> (#[trigger] ks[j].1).subkeys is None
}

proof fn lemma_map_put_flat(m: Seq<(Seq<char>, LocaleValueV)>, k: Seq<char>, v: LocaleValueV)
    requires
        all_flat(m),
        v.subkeys is None,
    ensures
        all_flat(map_put(m, k, v)),
    decreases m.len(),
{
    let r = map_put(m, k, v);
    if m.len() == 0 {
    } else if m[0].0 == k {
        assert forall|j: int| 0 <= j < r.len() implies (#[trigger] r[j].1).subkeys is None by {
            if j > 0 {
                assert(r[j] == m[j]);
            }
        }
    } else if crate::parse::str_less(k, m[0].0) {
        assert forall|j: int| 0 <= j < r.len() implies (#[trigger] r[j].1).subkeys is None by {
            if j > 0 {
                assert(r[j] == m[j - 1]);
            }
        }
    } else {
        let t = m.drop_first();
        assert forall|j: int| 0 <= j < t.len() implies (#[trigger] t[j].1).subkeys is None by {
            assert(t[j] == m[j + 1]);
        }
        lemma_map_put_flat(t, k, v);
        assert forall|j: int| 0 <= j < r.len() implies (#[trigger] r[j].1).subkeys is None by {
            if j > 0 {
                assert(r[j] == map_put(t, k, v)[j - 1]);
            }
        }
    }
}

proof fn lemma_builder_keys_flat(vs: Seq<(Seq<char>, ValueV)>, top: Seq<char>, kp: KeyPathV, t: Seq<Seq<char>>)
    ensures
        spec_builder_keys(vs, top, kp, t) matches Ok(p) ==> all_flat(p.1),
    decreases vs.len(),
{
    if vs.len() > 0 {
        lemma_builder_keys_flat(vs.drop_last(), top, kp, t);
        if let Ok(p0) = spec_builder_keys(vs.drop_last(), top, kp, t) {
            let iv = index_value(spec_reduce(vs.last().1), p0.2);
            lemma_map_put_flat(
                p0.1,
                vs.last().0,
                LocaleValueV { value: spec_get_keys(iv.0), default_locale: top, defaults: Seq::empty(), subkeys: None },
            );
        }
    }
}

/// Merging into plain requirements keeps them plain.
proof fn lemma_merge_pass_flat(
    k0: Seq<(Seq<char>, LocaleValueV)>,
    st0: LocaleMerge,
    top: Seq<char>,
    fb: (bool, Seq<char>),
    kp: KeyPathV,
    sup: bool,
    n: int,
)
    requires
        st0.keys == k0,
        all_flat(k0),
        0 <= n <= k0.len(),
    ensures
        merge_pass(k0, st0, top, fb, kp, sup, n) is Ok ==> all_flat(merge_pass(k0, st0, top, fb, kp, sup, n)->Ok_0.keys),
    decreases n,
{
    if n > 0 {
        lemma_merge_pass_flat(k0, st0, top, fb, kp, sup, n - 1);
        lemma_merge_pass_keys(k0, st0, top, fb, kp, sup, n - 1);
        if merge_pass(k0, st0, top, fb, kp, sup, n) is Ok {
            let s = merge_pass(k0, st0, top, fb, kp, sup, n - 1)->Ok_0;
            let r = merge_pass(k0, st0, top, fb, kp, sup, n)->Ok_0;
            assert(k0[n - 1].1.subkeys is None);
            let k = k0[n - 1].0;
            let missing = map_get(s.mine, k) is None;
            let mine1 = if missing {
                map_put(s.mine, k, ValueV::Default)
            } else {
                s.mine
            };
            let w1 = if missing && !fb.0 {
                s.warnings.push(WarnV::MissingKey { locale: top, key_path: push_path(kp, k) })
            } else {
                s.warnings
            };
            let m = spec_merge_value(k0[n - 1].1, map_get(mine1, k)->0, top, fb, push_path(kp, k), sup, s.strings, w1)->Ok_0;
            assert(m.0.subkeys is None);
            assert(r.keys == s.keys.update(n - 1, (k, m.0)));
            assert forall|j: int| 0 <= j < r.keys.len() implies (#[trigger] r.keys[j].1).subkeys is None by {
                if j != n - 1 {
                    assert(r.keys[j] == s.keys[j]);
                }
            }
        }
    }
}

/// Whether `map_get` finds a key depends on the names alone.
proof fn lemma_map_get_same_names<A, B>(m1: Seq<(Seq<char>, A)>, m2: Seq<(Seq<char>, B)>, k: Seq<char>)
    requires
        m1.len() == m2.len(),
        forall|j: int| 0 <= j < m1.len() ==> #[trigger] m1[j].0 == m2[j].0,
    ensures
        (map_get(m1, k) is Some) == (map_get(m2, k) is Some),
    decreases m1.len(),
{
    if m1.len() > 0 {
        assert(m1[0].0 == m2[0].0);
        assert forall|j: int| 0 <= j < m1.drop_first().len() implies #[trigger] m1.drop_first()[j].0
            == m2.drop_first()[j].0 by {
            assert(m1[j + 1].0 == m2[j + 1].0);
        }
        lemma_map_get_same_names(m1.drop_first(), m2.drop_first(), k);
    }
}

/// The builder keys hold exactly the names of the default locale's keys.
proof fn lemma_builder_keys_names(vs: Seq<(Seq<char>, ValueV)>, top: Seq<char>, kp: KeyPathV, t: Seq<Seq<char>>, k: Seq<char>)
    ensures
        spec_builder_keys(vs, top, kp, t) matches Ok(p) ==> ((map_get(p.1, k) is Some) <==> keys_of(vs).contains(k)),
    decreases vs.len(),
{
    if vs.len() > 0 {
        let init = vs.drop_last();
        lemma_builder_keys_names(init, top, kp, t, k);
        if let Ok(p0) = spec_builder_keys(init, top, kp, t) {
            let iv = index_value(spec_reduce(vs.last().1), p0.2);
            let lv = LocaleValueV { value: spec_get_keys(iv.0), default_locale: top, defaults: Seq::empty(), subkeys: None };
            if k == vs.last().0 {
                lemma_map_put_get_same(p0.1, k, lv);
                assert(keys_of(vs)[vs.len() - 1] == k);
            } else {
                lemma_map_put_get_other(p0.1, vs.last().0, lv, k);
                if keys_of(vs).contains(k) {
                    let j = choose|j: int| 0 <= j < keys_of(vs).len() && keys_of(vs)[j] == k;
                    assert(keys_of(init)[j] == k);
                }
                if keys_of(init).contains(k) {
                    let j = choose|j: int| 0 <= j < keys_of(init).len() && keys_of(init)[j] == k;
                    assert(keys_of(vs)[j] == k);
                }
            }
        }
    }
}

/// Checked locales: the keys are exactly the default locale's keys, each
/// once, in increasing order; every other locale then has a value (its
/// own, or a default taken from its fallback) for each of them.
pub proof fn law_checked_locales_cover_default_keys(
    ls: Seq<LocaleV>,
    kp: KeyPathV,
    ext: Seq<(Seq<char>, Seq<char>)>,
    suppress: bool,
    w: Seq<WarnV>,
)
    requires
        ls.len() > 0,
        spec_check_locales_inner(ls, kp, ext, suppress, w) is Ok,
    ensures
        ({
            let o = spec_check_locales_inner(ls, kp, ext, suppress, w)->Ok_0;
            &&& sorted_names(o.0)
            &&& forall|k: Seq<char>| (#[trigger] map_get(o.0, k) is Some) <==> keys_of(ls[0].keys).contains(k)
            &&& o.1.len() == ls.len()
            &&& forall|i: int, k: Seq<char>|
                1 <= i < o.1.len() && map_get(o.0, k) is Some ==> #[trigger] map_get(o.1[i].keys, k) is Some
        }),
{
    let icu = spec_locales_to_icu(top_names(ls))->Ok_0;
    let d = ls[0];
    let p = spec_builder_keys(d.keys, d.top, kp, Seq::empty())->Ok_0;
    let o = spec_check_locales_inner(ls, kp, ext, suppress, w)->Ok_0;
    let c = check_others(p.1, w, ls.skip(1), icu, ext, d.top, kp, suppress)->Ok_0;
    lemma_builder_keys_shape(d.keys, d.top, kp, Seq::empty());
    lemma_check_others(p.1, w, ls.skip(1), icu, ext, d.top, kp, suppress);
    assert(o.0 == c.0);
    assert(sorted_names(o.0)) by {
        assert forall|i: int, j: int| 0 <= i < j < o.0.len() implies crate::parse::str_less(
            #[trigger] o.0[i].0,
            #[trigger] o.0[j].0,
        ) by {
            assert(o.0[i].0 == p.1[i].0 && o.0[j].0 == p.1[j].0);
        }
    }
    assert forall|k: Seq<char>| (#[trigger] map_get(o.0, k) is Some) <==> keys_of(ls[0].keys).contains(k) by {
        lemma_map_get_same_names(o.0, p.1, k);
        lemma_builder_keys_names(d.keys, d.top, kp, Seq::empty(), k);
    }
    assert forall|i: int, k: Seq<char>|
        1 <= i < o.1.len() && map_get(o.0, k) is Some implies #[trigger] map_get(o.1[i].keys, k) is Some by {
        lemma_map_get_at(o.0, k);
        let j = choose|j: int| 0 <= j < o.0.len() && o.0[j].0 == k && o.0[j].1 == map_get(o.0, k)->0;
        assert(o.0[j].0 == p.1[j].0);
        assert(o.1[i] == c.1[i - 1]);
        assert(map_get(c.1[i - 1].keys, p.1[j].0) is Some);
    }
}

/// The locales of one namespace.
pub struct Namespace {
    pub key: Key,
    pub locales: Vec<Locale>,
}

/// View of a namespace.
pub struct NamespaceV {
    pub key: Seq<char>,
    pub locales: Seq<LocaleV>,
}

pub open spec fn namespaces_v(n: Seq<Namespace>) -> Seq<NamespaceV> {
    n.map_values(|ns: Namespace| NamespaceV { key: ns.key@, locales: locales_v(ns.locales@) })
}

/// The locales, either all together or in namespaces.
pub enum LocalesOrNamespaces {
    NameSpaces(Vec<Namespace>),
    Locales(Vec<Locale>),
}

/// The checked locales and the keys the default locale gives them (per
/// namespace, as a map sorted by namespace).
pub enum BuildersKeys {
    NameSpaces { namespaces: Vec<Namespace>, keys: Vec<(Key, Vec<(Key, LocaleValue)>)> },
    Locales { locales: Vec<Locale>, keys: Vec<(Key, LocaleValue)> },
}

pub open spec fn ns_keys_view(k: Seq<(Key, Vec<(Key, LocaleValue)>)>) -> Seq<(Seq<char>, Seq<(Seq<char>, LocaleValueV)>)> {
    k.map_values(|p: (Key, Vec<(Key, LocaleValue)>)| (p.0@, lvs_view(p.1@)))
}

/// Locales that can be checked: at least one, the first being the
/// default locale, and their foreign keys all resolved.
pub open spec fn checkable(ls: Seq<Locale>) -> bool {
    &&& ls.len() > 0
    &&& forall|i: int| 0 <= i < ls.len() ==> all_resolved(#[trigger] ls[i].keys@)
}

/// The namespaces checked in order (see `spec_check_locales_inner`), their
/// keys stored by namespace; the first error stops.
pub open spec fn check_namespaces(
    nss: Seq<NamespaceV>,
    ext: Seq<(Seq<char>, Seq<char>)>,
    suppress: bool,
    warnings: Seq<WarnV>,
) -> Result<(Seq<(Seq<char>, Seq<(Seq<char>, LocaleValueV)>)>, Seq<NamespaceV>, Seq<WarnV>), ErrV>
    decreases nss.len(),
{
    if nss.len() == 0 {
        Ok((Seq::empty(), Seq::empty(), warnings))
    } else {
        match check_namespaces(nss.drop_last(), ext, suppress, warnings) {
            Err(e) => Err(e),
            Ok(p) => {
                let ns = nss.last();
                let kp = KeyPathV { namespace: Some(ns.key), path: Seq::empty() };
                match spec_check_locales_inner(ns.locales, kp, ext, suppress, p.2) {
                    Err(e) => Err(e),
                    Ok(o) => Ok(
                        (map_put(p.0, ns.key, o.0), p.1.push(NamespaceV { key: ns.key, locales: o.1 }), o.2),
                    ),
                }
            },
        }
    }
}

proof fn lemma_check_namespaces_err(
    nss: Seq<NamespaceV>,
    ext: Seq<(Seq<char>, Seq<char>)>,
    suppress: bool,
    w: Seq<WarnV>,
    k: int,
)
    requires
        1 <= k <= nss.len(),
        check_namespaces(nss.take(k), ext, suppress, w) is Err,
    ensures
        check_namespaces(nss, ext, suppress, w) == check_namespaces(nss.take(k), ext, suppress, w),
    decreases nss.len() - k,
{
    if k < nss.len() {
        assert(nss.take(k + 1).drop_last() =~= nss.take(k));
        lemma_check_namespaces_err(nss, ext, suppress, w, k + 1);
    } else {
        assert(nss.take(k) =~= nss);
    }
}

/// Checks each namespace in order (see `check_namespaces`), keeping its
/// checked locales in place.
#[verifier::spinoff_prover]
#[verifier::rlimit(40)]
fn check_each_namespace(
    nss: &mut Vec<Namespace>,
    extensions: &Vec<(Key, Key)>,
    suppress_key_warnings: bool,
    warnings: &mut Vec<Warning>,
) -> (res: Result<Vec<(Key, Vec<(Key, LocaleValue)>)>, Error>)
    requires
        forall|i: int| 0 <= i < old(nss)@.len() ==> checkable(#[trigger] old(nss)@[i].locales@),
    ensures
        match check_namespaces(
            namespaces_v(old(nss)@),
            pairs_of_keys(extensions@),
            suppress_key_warnings,
            warnings_view(old(warnings)@),
        ) {
            Ok(o) => res is Ok && ns_keys_view(res->Ok_0@) == o.0 && namespaces_v(final(nss)@) == o.1
                && warnings_view(final(warnings)@) == o.2,
            Err(e) => res is Err && res->Err_0@ == e,
        },
{
    let ghost nv = namespaces_v(nss@);
    let ghost ext = pairs_of_keys(extensions@);
    let ghost w0 = warnings_view(warnings@);
    let ghost n0 = old(nss)@;
    let mut keys: Vec<(Key, Vec<(Key, LocaleValue)>)> = Vec::new();
    let mut i: usize = 0;
    proof {
        assert(nv.take(0) =~= Seq::<NamespaceV>::empty());
        assert(ns_keys_view(keys@) =~= Seq::<(Seq<char>, Seq<(Seq<char>, LocaleValueV)>)>::empty());
        assert(namespaces_v(nss@).take(0) =~= Seq::<NamespaceV>::empty());
    }
    while i < nss.len()
        invariant
            i <= nss@.len(),
            nss@.len() == n0.len(),
            n0 == old(nss)@,
            w0 == warnings_view(old(warnings)@),
            nv == namespaces_v(n0),
            ext == pairs_of_keys(extensions@),
            forall|j: int| 0 <= j < n0.len() ==> checkable(#[trigger] n0[j].locales@),
            forall|j: int| i <= j < nss@.len() ==> #[trigger] nss@[j] == n0[j],
            check_namespaces(nv.take(i as int), ext, suppress_key_warnings, w0) == Ok::<
                (Seq<(Seq<char>, Seq<(Seq<char>, LocaleValueV)>)>, Seq<NamespaceV>, Seq<WarnV>),
                ErrV,
            >((ns_keys_view(keys@), namespaces_v(nss@).take(i as int), warnings_view(warnings@))),
        decreases nss@.len() - i,
    {
        let ghost before = nss@;
        let ghost kv = ns_keys_view(keys@);
        let mut ns = nss.remove(i);
        assert(ns == n0[i as int]);
        proof {
            assert(nv.take(i + 1).drop_last() =~= nv.take(i as int));
            assert(nv.take(i + 1).last() == nv[i as int]);
        }
        let r = check_locales_inner(
            &mut ns.locales,
            Some(ns.key.copy()),
            extensions,
            suppress_key_warnings,
            warnings,
        );
        match r {
            Err(e) => {
                proof {
                    assert(nv[i as int].locales == locales_v(n0[i as int].locales@));
                    assert(check_namespaces(nv.take(i + 1), ext, suppress_key_warnings, w0) == Err::<
                        (Seq<(Seq<char>, Seq<(Seq<char>, LocaleValueV)>)>, Seq<NamespaceV>, Seq<WarnV>),
                        ErrV,
                    >(e@));
                    lemma_check_namespaces_err(nv, ext, suppress_key_warnings, w0, i as int + 1);
                }
                return Err(e);
            },
            Ok(k) => {
                let ghost kl = lvs_view(k@);
                let (j, found) = find_slot(&keys, ns.key.name.as_str());
                proof {
                    assert(keys@.map_values(|p: (Key, Vec<(Key, LocaleValue)>)| p.0@) =~= keys_of(kv));
                    lemma_slot(kv, ns.key@, kl, j as int, found);
                }
                if found {
                    let _ = keys.remove(j);
                }
                keys.insert(j, (ns.key.copy(), k));
                let ghost nsv = NamespaceV { key: ns.key@, locales: locales_v(ns.locales@) };
                nss.insert(i, ns);
                proof {
                    if found {
                        assert(ns_keys_view(keys@) =~= kv.update(j as int, (nsv.key, kl)));
                    } else {
                        assert(ns_keys_view(keys@) =~= kv.insert(j as int, (nsv.key, kl)));
                    }
                    assert(namespaces_v(nss@).take(i + 1) =~= namespaces_v(before).take(i as int).push(nsv));
                    assert forall|jj: int| i + 1 <= jj < nss@.len() implies #[trigger] nss@[jj] == n0[jj] by {
                        assert(nss@[jj] == before[jj]);
                    }
                }
            },
        }
        i = i + 1;
    }
    proof {
        assert(nv.take(i as int) =~= nv);
        assert(namespaces_v(nss@).take(i as int) =~= namespaces_v(nss@));
    }
    Ok(keys)
}

/// Checks the locales, all together or namespace by namespace (see
/// `spec_check_locales_inner` and `check_namespaces`); `extensions` holds
/// the declared inheritances as a map sorted by locale.
pub fn check_locales(
    locales: LocalesOrNamespaces,
    extensions: &Vec<(Key, Key)>,
    suppress_key_warnings: bool,
    warnings: &mut Vec<Warning>,
) -> (res: Result<BuildersKeys, Error>)
    requires
        match locales {
            LocalesOrNamespaces::Locales(ls) => checkable(ls@),
            LocalesOrNamespaces::NameSpaces(nss) => forall|i: int|
                0 <= i < nss@.len() ==> checkable(#[trigger] nss@[i].locales@),
        },
    ensures
        match locales {
            LocalesOrNamespaces::Locales(ls) => match spec_check_locales_inner(
                locales_v(ls@),
                root_path(None),
                pairs_of_keys(extensions@),
                suppress_key_warnings,
                warnings_view(old(warnings)@),
            ) {
                Ok(o) => res matches Ok(BuildersKeys::Locales { locales: l2, keys: k }) && lvs_view(k@) == o.0
                    && locales_v(l2@) == o.1 && warnings_view(final(warnings)@) == o.2,
                Err(e) => res is Err && res->Err_0@ == e,
            },
            LocalesOrNamespaces::NameSpaces(nss) => match check_namespaces(
                namespaces_v(nss@),
                pairs_of_keys(extensions@),
                suppress_key_warnings,
                warnings_view(old(warnings)@),
            ) {
                Ok(o) => res matches Ok(BuildersKeys::NameSpaces { namespaces: n2, keys: k }) && ns_keys_view(k@)
                    == o.0 && namespaces_v(n2@) == o.1 && warnings_view(final(warnings)@) == o.2,
                Err(e) => res is Err && res->Err_0@ == e,
            },
        },
{
    match locales {
        LocalesOrNamespaces::Locales(mut ls) => {
            match check_locales_inner(&mut ls, None, extensions, suppress_key_warnings, warnings) {
                Ok(keys) => Ok(BuildersKeys::Locales { locales: ls, keys }),
                Err(e) => Err(e),
            }
        },
        LocalesOrNamespaces::NameSpaces(mut nss) => {
            match check_each_namespace(&mut nss, extensions, suppress_key_warnings, warnings) {
                Ok(keys) => Ok(BuildersKeys::NameSpaces { namespaces: nss, keys }),
                Err(e) => Err(e),
            }
        },
    }
}

} // verus!
