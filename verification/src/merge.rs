//! Gathering of plural keys: the keys of one level named `base_form` (or
//! `base_ordinal_form`) become one plural value under `base`, with one
//! value per form.

use vstd::prelude::*;
use crate::builders::{find_slot, keys_of, lemma_slot, map_get, map_put};
use crate::error::{ErrV, Error, WarnV, Warning, errs_view, lemma_errs_push, warnings_view};
use crate::plural_rules::{all_forms, categories_for, forms_contains, plural_categories, rules_failure, rules_for};
use crate::key::{Key, KeyPath, KeyPathV, spec_key_new};
use crate::plurals::{PluralForm, PluralForms, PluralRuleType, is_possible_plural, spec_possible_plural};
use crate::text::to_owned;
use crate::value::{Dummy, DummyV, ParsedValue, ValueV};

verus! {

/// A translation entry before plurals are gathered: a value, nested keys,
/// an explicit default, or placeholders of a value that failed to parse.
#[derive(Debug, PartialEq)]
pub enum RawEntry {
    Value(ParsedValue),
    Subkeys(Vec<(Key, RawEntry)>),
    Defaulted,
    Dummy(Vec<Dummy>),
}

/// View of a raw entry.
pub enum RawEntryV {
    Value(ValueV),
    Subkeys(Seq<(Seq<char>, RawEntryV)>),
    Defaulted,
    Dummy(Seq<DummyV>),
}

pub open spec fn raw_view(e: RawEntry) -> RawEntryV
    decreases e,
{
    match e {
        RawEntry::Value(v) => RawEntryV::Value(v@),
        RawEntry::Subkeys(s) => RawEntryV::Subkeys(raws_view(s@)),
        RawEntry::Defaulted => RawEntryV::Defaulted,
        RawEntry::Dummy(d) => RawEntryV::Dummy(d@.map_values(|x: Dummy| x@)),
    }
}

pub open spec fn raws_view(s: Seq<(Key, RawEntry)>) -> Seq<(Seq<char>, RawEntryV)>
    decreases s,
{
    if s.len() == 0 {
        Seq::empty()
    } else {
        raws_view(s.drop_last()).push((s.last().0@, raw_view(s.last().1)))
    }
}

/// A gathered plural: its rule type, count variable and forms.
#[derive(Debug, PartialEq)]
pub struct MergedPlurals {
    pub rule_type: PluralRuleType,
    pub count_key: Key,
    pub forms: PluralForms<ParsedValue>,
}

/// A value after plurals are gathered.
#[derive(Debug, PartialEq)]
pub enum MergedValue {
    RawValue(ParsedValue),
    Plurals(MergedPlurals),
}

/// A translation entry after plurals are gathered.
#[derive(Debug, PartialEq)]
pub enum MergedEntry {
    Value(MergedValue),
    Subkeys(Vec<(Key, MergedEntry)>),
    Defaulted,
    Dummy(Vec<Dummy>),
}

/// View of the forms of a gathered plural: the value of each form.
pub struct FormsV {
    pub zero: Option<ValueV>,
    pub one: Option<ValueV>,
    pub two: Option<ValueV>,
    pub few: Option<ValueV>,
    pub many: Option<ValueV>,
    pub other: ValueV,
}

pub open spec fn opt_vview(o: Option<ParsedValue>) -> Option<ValueV> {
    match o {
        Some(v) => Some(v@),
        None => None,
    }
}

pub open spec fn forms_view(f: PluralForms<ParsedValue>) -> FormsV {
    FormsV {
        zero: opt_vview(f.form(PluralForm::Zero)),
        one: opt_vview(f.form(PluralForm::One)),
        two: opt_vview(f.form(PluralForm::Two)),
        few: opt_vview(f.form(PluralForm::Few)),
        many: opt_vview(f.form(PluralForm::Many)),
        other: f.form(PluralForm::Other)->0@,
    }
}

/// View of a gathered entry.
pub enum MergedV {
    Raw(ValueV),
    Plurals(PluralRuleType, Seq<char>, FormsV),
    Subkeys(Seq<(Seq<char>, MergedV)>),
    Defaulted,
    Dummy(Seq<DummyV>),
}

pub open spec fn merged_view(e: MergedEntry) -> MergedV
    decreases e,
{
    match e {
        MergedEntry::Value(MergedValue::RawValue(v)) => MergedV::Raw(v@),
        MergedEntry::Value(MergedValue::Plurals(p)) => MergedV::Plurals(p.rule_type, p.count_key@, forms_view(p.forms)),
        MergedEntry::Subkeys(s) => MergedV::Subkeys(mergeds_view(s@)),
        MergedEntry::Defaulted => MergedV::Defaulted,
        MergedEntry::Dummy(d) => MergedV::Dummy(d@.map_values(|x: Dummy| x@)),
    }
}

pub open spec fn mergeds_view(s: Seq<(Key, MergedEntry)>) -> Seq<(Seq<char>, MergedV)>
    decreases s,
{
    if s.len() == 0 {
        Seq::empty()
    } else {
        mergeds_view(s.drop_last()).push((s.last().0@, merged_view(s.last().1)))
    }
}

/// One candidate form of a plural: the form, the full key, the rule type
/// and the value.
pub type Candidate = (PluralForm, Seq<char>, PluralRuleType, ValueV);

pub open spec fn form_rank(f: PluralForm) -> int {
    match f {
        PluralForm::Zero => 0,
        PluralForm::One => 1,
        PluralForm::Two => 2,
        PluralForm::Few => 3,
        PluralForm::Many => 4,
        PluralForm::Other => 5,
    }
}

/// The candidates of one base, kept sorted by form, a later candidate of
/// a form replacing an earlier one.
pub open spec fn cand_put(s: Seq<Candidate>, c: Candidate) -> Seq<Candidate>
    decreases s.len(),
{
    if s.len() == 0 {
        seq![c]
    } else if s[0].0 == c.0 {
        seq![c] + s.drop_first()
    } else if form_rank(c.0) < form_rank(s[0].0) {
        seq![c] + s
    } else {
        seq![s[0]] + cand_put(s.drop_first(), c)
    }
}

/// Where the plural keys wait, by base name.
pub type Possible = Seq<(Seq<char>, Seq<Candidate>)>;

/// The state of the first pass over a level: the entries kept as they are
/// (with nested levels gathered), the plural candidates, and the errors.
pub struct PassV {
    pub merged: Seq<(Seq<char>, MergedV)>,
    pub possible: Possible,
    pub errs: Seq<ErrV>,
    pub warns: Seq<WarnV>,
}

/// The location of nested keys.
pub open spec fn push_path(kp: KeyPathV, k: Seq<char>) -> KeyPathV {
    KeyPathV { namespace: kp.namespace, path: kp.path.push(k) }
}

/// The first pass over a level: a nested level is gathered and kept; a
/// key named like a plural form becomes a candidate of its base; any other
/// entry is kept as it is. `None` where a plural key holds no value (the
/// gathering does not accept it).
pub open spec fn spec_pass(
    entries: Seq<(Seq<char>, RawEntryV)>,
    locale: Seq<char>,
    kp: KeyPathV,
    plurals_on: bool,
) -> Option<PassV>
    decreases entries, 0nat,
{
    if entries.len() == 0 {
        Some(PassV { merged: Seq::empty(), possible: Seq::empty(), errs: Seq::empty(), warns: Seq::empty() })
    } else {
        match spec_pass(entries.drop_last(), locale, kp, plurals_on) {
            None => None,
            Some(st) => {
                let (key, e) = entries.last();
                match e {
                    RawEntryV::Subkeys(sub) => match spec_merge_level(sub, locale, push_path(kp, key), plurals_on) {
                        None => None,
                        Some((m, errs, ws)) => Some(
                            PassV {
                                merged: map_put(st.merged, key, MergedV::Subkeys(m)),
                                possible: st.possible,
                                errs: st.errs + errs,
                                warns: st.warns + ws,
                            },
                        ),
                    },
                    _ => match spec_possible_plural(key) {
                        Some((base, rule, form)) => match e {
                            RawEntryV::Value(v) => {
                                let cands = match map_get(st.possible, base) {
                                    Some(c) => c,
                                    None => Seq::empty(),
                                };
                                Some(
                                    PassV {
                                        merged: st.merged,
                                        possible: map_put(st.possible, base, cand_put(cands, (form, key, rule, v))),
                                        errs: st.errs,
                                        warns: st.warns,
                                    },
                                )
                            },
                            _ => None,
                        },
                        None => Some(
                            PassV {
                                merged: map_put(st.merged, key, kept_view(e)),
                                possible: st.possible,
                                errs: st.errs,
                                warns: st.warns,
                            },
                        ),
                    },
                }
            },
        }
    }
}

/// An entry kept as it is.
pub open spec fn kept_view(e: RawEntryV) -> MergedV {
    match e {
        RawEntryV::Value(v) => MergedV::Raw(v),
        RawEntryV::Defaulted => MergedV::Defaulted,
        RawEntryV::Dummy(d) => MergedV::Dummy(d),
        RawEntryV::Subkeys(_) => MergedV::Defaulted,
    }
}

/// The candidates put back as plain values, in form order.
pub open spec fn put_back(merged: Seq<(Seq<char>, MergedV)>, cands: Seq<Candidate>) -> Seq<(Seq<char>, MergedV)>
    decreases cands.len(),
{
    if cands.len() == 0 {
        merged
    } else {
        put_back(map_put(merged, cands[0].1, MergedV::Raw(cands[0].3)), cands.drop_first())
    }
}

/// The forms built from the other form and the candidates of the same rule
/// type, and whether a candidate of the other rule type was met.
pub open spec fn build_forms(cands: Seq<Candidate>, rule: PluralRuleType, acc: FormsV, conflict: bool) -> (FormsV, bool)
    decreases cands.len(),
{
    if cands.len() == 0 {
        (acc, conflict)
    } else {
        let c = cands[0];
        if c.0 == PluralForm::Other {
            build_forms(cands.drop_first(), rule, acc, conflict)
        } else if c.2 == rule {
            build_forms(cands.drop_first(), rule, set_form(acc, c.0, c.3), conflict)
        } else {
            build_forms(cands.drop_first(), rule, acc, true)
        }
    }
}

pub open spec fn set_form(f: FormsV, form: PluralForm, v: ValueV) -> FormsV {
    match form {
        PluralForm::Zero => FormsV { zero: Some(v), ..f },
        PluralForm::One => FormsV { one: Some(v), ..f },
        PluralForm::Two => FormsV { two: Some(v), ..f },
        PluralForm::Few => FormsV { few: Some(v), ..f },
        PluralForm::Many => FormsV { many: Some(v), ..f },
        PluralForm::Other => FormsV { other: v, ..f },
    }
}

/// The candidate of the other form, if any.
pub open spec fn other_of(cands: Seq<Candidate>) -> Option<Candidate>
    decreases cands.len(),
{
    if cands.len() == 0 {
        None
    } else if cands[0].0 == PluralForm::Other {
        Some(cands[0])
    } else {
        other_of(cands.drop_first())
    }
}

/// Whether a form is given: `other` always is.
pub open spec fn form_given(f: FormsV, form: PluralForm) -> bool {
    match form {
        PluralForm::Zero => f.zero is Some,
        PluralForm::One => f.one is Some,
        PluralForm::Two => f.two is Some,
        PluralForm::Few => f.few is Some,
        PluralForm::Many => f.many is Some,
        PluralForm::Other => true,
    }
}

/// A warning for each form among the first `n` categories that is given
/// and not among `used`, in category order.
pub open spec fn forms_unused(
    f: FormsV,
    rule: PluralRuleType,
    used: Seq<PluralForm>,
    locale: Seq<char>,
    kp: KeyPathV,
    n: int,
) -> Seq<WarnV>
    decreases n,
{
    if n <= 0 {
        Seq::empty()
    } else {
        let prev = forms_unused(f, rule, used, locale, kp, n - 1);
        let form = all_forms()[n - 1];
        if form_given(f, form) && !used.contains(form) {
            prev.push(WarnV::UnusedForm { locale, key_path: kp, form, rule_type: rule })
        } else {
            prev
        }
    }
}

/// The warnings for a gathered plural: one for each given form that the
/// locale's rules never select; none when the rules cannot be had (that
/// failure is not reported here).
pub open spec fn forms_warnings(f: FormsV, rule: PluralRuleType, locale: Seq<char>, kp: KeyPathV) -> Seq<WarnV> {
    match rules_failure(locale, rule) {
        Some(_) => Seq::empty(),
        None => forms_unused(f, rule, plural_categories(locale, rule), locale, kp, 6),
    }
}

/// The state of the second pass: entries, errors, and whether the
/// disabled-plurals error was already reported at this level.
pub struct Pass2V {
    pub merged: Seq<(Seq<char>, MergedV)>,
    pub errs: Seq<ErrV>,
    pub warns: Seq<WarnV>,
    pub disabled_reported: bool,
}

/// One base of the second pass: a lone candidate, or candidates without an
/// other form, are put back as plain values; an invalid base name is
/// reported and its candidates dropped; else the plural is built under
/// the base (reporting disabled plurals once per level, a conflict of rule
/// types once per plural, and, when there was no conflict, the forms the
/// locale's rules never select and a plural replacing a plain key of the
/// same name).
pub open spec fn spec_base(
    st: Pass2V,
    base: Seq<char>,
    cands: Seq<Candidate>,
    locale: Seq<char>,
    kp: KeyPathV,
    plurals_on: bool,
    count_key: Seq<char>,
) -> Pass2V {
    if cands.len() == 1 {
        Pass2V { merged: put_back(st.merged, cands), ..st }
    } else {
        match other_of(cands) {
            None => Pass2V { merged: put_back(st.merged, cands), ..st },
            Some(o) => match spec_key_new(base) {
                None => Pass2V {
                    errs: st.errs.push(ErrV::InvalidKeyAt { key: base, locale, key_path: kp }),
                    ..st
                },
                Some(k) => {
                    let loc = push_path(kp, k);
                    let e1 = if !plurals_on && !st.disabled_reported {
                        st.errs.push(ErrV::DisabledPlurals { locale, key_path: loc })
                    } else {
                        st.errs
                    };
                    let init = FormsV { zero: None, one: None, two: None, few: None, many: None, other: o.3 };
                    let (forms, conflict) = build_forms(cands, o.2, init, false);
                    let e2 = if conflict {
                        e1.push(ErrV::ConflictingPluralRuleType { locale, key_path: loc })
                    } else {
                        e1
                    };
                    let e3 = if !conflict && map_get(st.merged, k) is Some {
                        e2.push(ErrV::PluralsAtNormalKey { locale, key_path: loc })
                    } else {
                        e2
                    };
                    Pass2V {
                        merged: map_put(st.merged, k, MergedV::Plurals(o.2, count_key, forms)),
                        errs: e3,
                        warns: if conflict {
                            st.warns
                        } else {
                            st.warns + forms_warnings(forms, o.2, locale, loc)
                        },
                        disabled_reported: st.disabled_reported || !plurals_on,
                    }
                },
            },
        }
    }
}

/// The second pass over the bases, in order.
pub open spec fn spec_pass2(
    st: Pass2V,
    possible: Possible,
    locale: Seq<char>,
    kp: KeyPathV,
    plurals_on: bool,
    count_key: Seq<char>,
) -> Pass2V
    decreases possible.len(),
{
    if possible.len() == 0 {
        st
    } else {
        spec_pass2(
            spec_base(st, possible[0].0, possible[0].1, locale, kp, plurals_on, count_key),
            possible.drop_first(),
            locale,
            kp,
            plurals_on,
            count_key,
        )
    }
}

/// A level with its plurals gathered, the errors reported and the warnings
/// given; `None` where a plural key holds no value.
pub open spec fn spec_merge_level(
    entries: Seq<(Seq<char>, RawEntryV)>,
    locale: Seq<char>,
    kp: KeyPathV,
    plurals_on: bool,
) -> Option<(Seq<(Seq<char>, MergedV)>, Seq<ErrV>, Seq<WarnV>)>
    decreases entries, 1nat,
{
    match spec_pass(entries, locale, kp, plurals_on) {
        None => None,
        Some(st) => {
            let r = spec_pass2(
                Pass2V { merged: st.merged, errs: st.errs, warns: st.warns, disabled_reported: false },
                st.possible,
                locale,
                kp,
                plurals_on,
                spec_key_new("var_count"@)->0,
            );
            Some((r.merged, r.errs, r.warns))
        },
    }
}

pub proof fn lemma_raws_view(s: Seq<(Key, RawEntry)>)
    ensures
        raws_view(s).len() == s.len(),
        forall|i: int| 0 <= i < s.len() ==> #[trigger] raws_view(s)[i] == (s[i].0@, raw_view(s[i].1)),
    decreases s.len(),
{
    if s.len() > 0 {
        lemma_raws_view(s.drop_last());
    }
}

pub proof fn lemma_mergeds_view(s: Seq<(Key, MergedEntry)>)
    ensures
        mergeds_view(s).len() == s.len(),
        forall|i: int| 0 <= i < s.len() ==> #[trigger] mergeds_view(s)[i] == (s[i].0@, merged_view(s[i].1)),
    decreases s.len(),
{
    if s.len() > 0 {
        lemma_mergeds_view(s.drop_last());
    }
}

/// Stores `e` under `k` in a map of gathered entries sorted by key.
fn merged_insert(m: &mut Vec<(Key, MergedEntry)>, k: Key, e: MergedEntry) -> (had: bool)
    ensures
        mergeds_view(final(m)@) == map_put(mergeds_view(old(m)@), k@, merged_view(e)),
        had == map_get(mergeds_view(old(m)@), k@) is Some,
{
    let ghost m0 = mergeds_view(m@);
    let ghost ev = merged_view(e);
    let (i, found) = find_slot(m, k.name.as_str());
    proof {
        lemma_mergeds_view(m@);
        assert(m@.map_values(|p: (Key, MergedEntry)| p.0@) =~= keys_of(m0));
        lemma_slot(m0, k@, ev, i as int, found);
    }
    let ghost kv = k@;
    if found {
        let _ = m.remove(i);
        m.insert(i, (k, e));
    } else {
        m.insert(i, (k, e));
    }
    proof {
        lemma_mergeds_view(m@);
        if found {
            assert(mergeds_view(m@) =~= m0.update(i as int, (kv, ev)));
        } else {
            assert(mergeds_view(m@) =~= m0.insert(i as int, (kv, ev)));
        }
    }
    found
}

/// A candidate as the first pass keeps it.
pub type Cand = (PluralForm, Key, PluralRuleType, ParsedValue);

pub open spec fn cand_view(c: Cand) -> Candidate {
    (c.0, c.1@, c.2, c.3@)
}

pub open spec fn cands_view(s: Seq<Cand>) -> Seq<Candidate> {
    s.map_values(|c: Cand| cand_view(c))
}

pub open spec fn possible_view(s: Seq<(Key, Vec<Cand>)>) -> Possible {
    s.map_values(|p: (Key, Vec<Cand>)| (p.0@, cands_view(p.1@)))
}

fn form_rank_exec(f: PluralForm) -> (r: u8)
    ensures
        r as int == form_rank(f),
{
    match f {
        PluralForm::Zero => 0,
        PluralForm::One => 1,
        PluralForm::Two => 2,
        PluralForm::Few => 3,
        PluralForm::Many => 4,
        PluralForm::Other => 5,
    }
}

fn cand_insert(v: &mut Vec<Cand>, c: Cand)
    ensures
        cands_view(final(v)@) == cand_put(cands_view(old(v)@), cand_view(c)),
{
    let ghost s0 = cands_view(v@);
    let ghost cv = cand_view(c);
    assert(s0.skip(0) =~= s0);
    assert(s0.take(0) + cand_put(s0.skip(0), cv) =~= cand_put(s0, cv));
    let n = v.len();
    let rc = form_rank_exec(c.0);
    let mut i: usize = 0;
    while i < n
        invariant
            n == v@.len(),
            i <= n,
            s0 == cands_view(v@),
            s0 == cands_view(old(v)@),
            cv == cand_view(c),
            rc as int == form_rank(c.0),
            cand_put(s0, cv) == s0.take(i as int) + cand_put(s0.skip(i as int), cv),
        decreases n - i,
    {
        assert(s0.skip(i as int)[0] == cand_view(v@[i as int]));
        assert(s0.skip(i as int).drop_first() =~= s0.skip(i + 1));
        let ri = form_rank_exec(v[i].0);
        if ri == rc {
            let _ = v.remove(i);
            v.insert(i, c);
            assert(cands_view(v@) =~= s0.take(i as int) + (seq![cv] + s0.skip(i + 1)));
            return;
        }
        if rc < ri {
            v.insert(i, c);
            assert(cands_view(v@) =~= s0.take(i as int) + (seq![cv] + s0.skip(i as int)));
            return;
        }
        assert(s0.take(i as int) + (seq![s0[i as int]] + cand_put(s0.skip(i + 1), cv)) =~= s0.take(
            i + 1,
        ) + cand_put(s0.skip(i + 1), cv));
        i = i + 1;
    }
    v.push(c);
    assert(s0.skip(n as int) =~= Seq::<Candidate>::empty());
    assert(cands_view(v@) =~= s0.take(n as int) + seq![cv]);
}

/// Adds candidate `c` to base `base` of `possible`.
fn possible_insert(possible: &mut Vec<(Key, Vec<Cand>)>, base: Key, c: Cand)
    ensures
        possible_view(final(possible)@) == map_put(
            possible_view(old(possible)@),
            base@,
            cand_put(
                match map_get(possible_view(old(possible)@), base@) {
                    Some(cs) => cs,
                    None => Seq::empty(),
                },
                cand_view(c),
            ),
        ),
{
    let ghost p0 = possible_view(possible@);
    let (i, found) = find_slot(possible, base.name.as_str());
    proof {
        assert(possible@.map_values(|p: (Key, Vec<Cand>)| p.0@) =~= keys_of(p0));
    }
    let ghost bv = base@;
    if found {
        let (k, mut cands) = possible.remove(i);
        let ghost c0 = cands_view(cands@);
        cand_insert(&mut cands, c);
        proof {
            lemma_slot(p0, bv, cands_view(cands@), i as int, true);
        }
        possible.insert(i, (k, cands));
        assert(possible_view(possible@) =~= p0.update(i as int, (bv, cand_put(c0, cand_view(c)))));
    } else {
        let mut cands: Vec<Cand> = Vec::new();
        assert(cands_view(cands@) =~= Seq::<Candidate>::empty());
        cand_insert(&mut cands, c);
        proof {
            lemma_slot(p0, bv, cands_view(cands@), i as int, false);
        }
        possible.insert(i, (base, cands));
        assert(possible_view(possible@) =~= p0.insert(
            i as int,
            (bv, cand_put(Seq::<Candidate>::empty(), cand_view(c))),
        ));
    }
}

proof fn lemma_pass_prefix(entries: Seq<(Seq<char>, RawEntryV)>, locale: Seq<char>, kp: KeyPathV, on: bool, i: int)
    requires
        0 <= i <= entries.len(),
        spec_pass(entries, locale, kp, on) is Some,
    ensures
        spec_pass(entries.take(i), locale, kp, on) is Some,
    decreases entries.len() - i,
{
    if i == entries.len() {
        assert(entries.take(i) =~= entries);
    } else {
        lemma_pass_prefix(entries, locale, kp, on, i + 1);
        assert(entries.take(i + 1).drop_last() =~= entries.take(i));
    }
}

/// The forms after `insert_form` are those before with one form set.
proof fn lemma_forms_insert(before: PluralForms<ParsedValue>, after: PluralForms<ParsedValue>, f: PluralForm, v: ParsedValue)
    requires
        after.form(f) == Some(v),
        forall|g: PluralForm| g != f ==> #[trigger] after.form(g) == before.form(g),
        before.form(PluralForm::Other) is Some,
    ensures
        forms_view(after) == set_form(forms_view(before), f, v@),
{
    assert(after.form(PluralForm::Zero) == before.form(PluralForm::Zero) || f == PluralForm::Zero);
    assert(after.form(PluralForm::One) == before.form(PluralForm::One) || f == PluralForm::One);
    assert(after.form(PluralForm::Two) == before.form(PluralForm::Two) || f == PluralForm::Two);
    assert(after.form(PluralForm::Few) == before.form(PluralForm::Few) || f == PluralForm::Few);
    assert(after.form(PluralForm::Many) == before.form(PluralForm::Many) || f == PluralForm::Many);
    assert(after.form(PluralForm::Other) == before.form(PluralForm::Other) || f == PluralForm::Other);
}

/// Puts the candidates back as plain values.
fn put_back_exec(merged: &mut Vec<(Key, MergedEntry)>, cands: Vec<Cand>)
    ensures
        mergeds_view(final(merged)@) == put_back(mergeds_view(old(merged)@), cands_view(cands@)),
{
    let ghost all = cands_view(cands@);
    let mut cands = cands;
    let ghost m0 = mergeds_view(merged@);
    while cands.len() > 0
        invariant
            put_back(m0, all) == put_back(mergeds_view(merged@), cands_view(cands@)),
            m0 == mergeds_view(old(merged)@),
        decreases cands@.len(),
    {
        let ghost cv = cands_view(cands@);
        let c = cands.remove(0);
        assert(cv[0] == cand_view(c));
        assert(cands_view(cands@) =~= cv.drop_first());
        let (_, k, _, v) = c;
        let _ = merged_insert(merged, k, MergedEntry::Value(MergedValue::RawValue(v)));
    }
}

/// Finds the index of the candidate of the other form.
fn find_other(cands: &Vec<Cand>) -> (res: Option<usize>)
    ensures
        match res {
            Some(i) => i < cands@.len() && other_of(cands_view(cands@)) == Some(cand_view(cands@[i as int])),
            None => other_of(cands_view(cands@)) is None,
        },
{
    let ghost cv = cands_view(cands@);
    let mut i: usize = 0;
    assert(cv.skip(0) =~= cv);
    while i < cands.len()
        invariant
            cv == cands_view(cands@),
            i <= cands@.len(),
            other_of(cv) == other_of(cv.skip(i as int)),
        decreases cands@.len() - i,
    {
        assert(cv.skip(i as int)[0] == cand_view(cands@[i as int]));
        assert(cv.skip(i as int).drop_first() =~= cv.skip(i + 1));
        match cands[i].0 {
            PluralForm::Other => return Some(i),
            _ => {},
        }
        i = i + 1;
    }
    None
}

/// Builds the forms of a plural from its candidates (see `build_forms`),
/// the value of the other form already in `forms`.
fn build_forms_exec(cands: &Vec<Cand>, rule: PluralRuleType, forms: &mut PluralForms<ParsedValue>) -> (conflict: bool)
    requires
        old(forms).form(PluralForm::Other) is Some,
    ensures
        final(forms).form(PluralForm::Other) is Some,
        (forms_view(*final(forms)), conflict) == build_forms(cands_view(cands@), rule, forms_view(*old(forms)), false),
{
    let ghost cv = cands_view(cands@);
    let mut conflict = false;
    let mut i: usize = 0;
    assert(cv.skip(0) =~= cv);
    while i < cands.len()
        invariant
            cv == cands_view(cands@),
            i <= cands@.len(),
            forms.form(PluralForm::Other) is Some,
            build_forms(cv, rule, forms_view(*old(forms)), false) == build_forms(
                cv.skip(i as int),
                rule,
                forms_view(*forms),
                conflict,
            ),
        decreases cands@.len() - i,
    {
        assert(cv.skip(i as int)[0] == cand_view(cands@[i as int]));
        assert(cv.skip(i as int).drop_first() =~= cv.skip(i + 1));
        let c = &cands[i];
        let is_other = match c.0 {
            PluralForm::Other => true,
            _ => false,
        };
        if is_other {
        } else if c.2 == rule {
            let ghost before = *forms;
            let v = c.3.copy();
            let _ = forms.insert_form(c.0, v);
            proof {
                lemma_forms_insert(before, *forms, c.0, v);
            }
        } else {
            conflict = true;
        }
        i = i + 1;
    }
    assert(cv.skip(i as int) =~= Seq::<Candidate>::empty());
    conflict
}

/// Warns about each form of a gathered plural that the locale's rules never
/// select (see `forms_warnings`).
fn check_merged_forms(
    rule: PluralRuleType,
    forms: &PluralForms<ParsedValue>,
    locale: &Key,
    key_path: &KeyPath,
    warnings: &mut Vec<Warning>,
)
    ensures
        warnings_view(final(warnings)@) == warnings_view(old(warnings)@) + forms_warnings(
            forms_view(*forms),
            rule,
            locale@,
            key_path@,
        ),
{
    let ghost fv = forms_view(*forms);
    let ghost w0 = warnings_view(warnings@);
    let r = match rules_for(locale.name.as_str(), rule) {
        Err(_) => {
            assert(w0 + Seq::<WarnV>::empty() =~= w0);
            return;
        },
        Ok(r) => r,
    };
    let used = categories_for(&r);
    let all = [PluralForm::Zero, PluralForm::One, PluralForm::Two, PluralForm::Few, PluralForm::Many, PluralForm::Other];
    assert(all@ =~= all_forms());
    assert(w0 + forms_unused(fv, rule, used@, locale@, key_path@, 0) =~= w0);
    let mut n: usize = 0;
    while n < 6
        invariant
            n <= 6,
            all@ == all_forms(),
            used@ == plural_categories(locale@, rule),
            fv == forms_view(*forms),
            warnings_view(warnings@) == w0 + forms_unused(fv, rule, used@, locale@, key_path@, n as int),
        decreases 6 - n,
    {
        let f = all[n];
        let ghost before = warnings@;
        let given = match forms.get_form(f) {
            Some(_) => true,
            None => false,
        };
        proof {
            forms.lemma_other_given();
            match f {
                PluralForm::Zero => assert(fv.zero == opt_vview(forms.form(f))),
                PluralForm::One => assert(fv.one == opt_vview(forms.form(f))),
                PluralForm::Two => assert(fv.two == opt_vview(forms.form(f))),
                PluralForm::Few => assert(fv.few == opt_vview(forms.form(f))),
                PluralForm::Many => assert(fv.many == opt_vview(forms.form(f))),
                PluralForm::Other => {},
            }
        }
        assert(given == form_given(fv, f));
        if given && !forms_contains(&used, f) {
            let w = Warning::UnusedForm { locale: locale.copy(), key_path: key_path.copy(), form: f, rule_type: rule };
            let ghost wv = w@;
            warnings.push(w);
            assert(warnings_view(warnings@) =~= warnings_view(before).push(wv));
        }
        n = n + 1;
    }
}

#[verifier::rlimit(60)]
#[verifier::spinoff_prover]
fn merge_level(
    values: Vec<(Key, RawEntry)>,
    locale: &Key,
    key_path: &KeyPath,
    plurals_on: bool,
    diag: &mut Vec<Error>,
    warnings: &mut Vec<Warning>,
    Ghost(measure): Ghost<Seq<(Seq<char>, RawEntryV)>>,
) -> (res: Vec<(Key, MergedEntry)>)
    requires
        measure == raws_view(values@),
        spec_merge_level(raws_view(values@), locale@, key_path@, plurals_on) is Some,
        spec_key_new("var_count"@) is Some,
    ensures
        spec_merge_level(raws_view(values@), locale@, key_path@, plurals_on) matches Some((m, errs, ws))
            && mergeds_view(res@) == m && errs_view(final(diag)@) == errs_view(old(diag)@) + errs
            && warnings_view(final(warnings)@) == warnings_view(old(warnings)@) + ws,
    decreases measure,
{
    let ghost orig = values@;
    let ghost rv = raws_view(orig);
    let ghost d0 = errs_view(diag@);
    let ghost w0 = warnings_view(warnings@);
    let ghost loc = locale@;
    let ghost kpv = key_path@;
    proof {
        lemma_raws_view(orig);
    }
    let mut values = values;
    let mut merged: Vec<(Key, MergedEntry)> = Vec::new();
    let mut possible: Vec<(Key, Vec<Cand>)> = Vec::new();
    let mut i: usize = 0;
    let n = values.len();
    proof {
        assert(rv.take(0) =~= Seq::<(Seq<char>, RawEntryV)>::empty());
        assert(mergeds_view(merged@) =~= Seq::<(Seq<char>, MergedV)>::empty());
        assert(possible_view(possible@) =~= Seq::<(Seq<char>, Seq<Candidate>)>::empty());
        assert(errs_view(diag@) =~= d0 + Seq::<ErrV>::empty());
        assert(warnings_view(warnings@) =~= w0 + Seq::<WarnV>::empty());
    }
    while values.len() > 0
        invariant
            measure == rv,
            n == orig.len(),
            rv == raws_view(orig),
            rv.len() == n,
            forall|j: int| 0 <= j < n ==> #[trigger] rv[j] == (orig[j].0@, raw_view(orig[j].1)),
            i + values@.len() == n,
            values@ == orig.skip(i as int),
            loc == locale@,
            kpv == key_path@,
            d0 == errs_view(old(diag)@),
            w0 == warnings_view(old(warnings)@),
            spec_key_new("var_count"@) is Some,
            spec_pass(rv, loc, kpv, plurals_on) is Some,
            spec_pass(rv.take(i as int), loc, kpv, plurals_on) matches Some(st) && mergeds_view(merged@)
                == st.merged && possible_view(possible@) == st.possible && errs_view(diag@) == d0 + st.errs
                && warnings_view(warnings@) == w0 + st.warns,
        decreases values@.len(),
    {
        proof {
            lemma_pass_prefix(rv, loc, kpv, plurals_on, i + 1);
            assert(rv.take(i + 1).drop_last() =~= rv.take(i as int));
            assert(rv.take(i + 1).last() == rv[i as int]);
        }
        let ghost st = spec_pass(rv.take(i as int), loc, kpv, plurals_on)->0;
        let (key, entry) = values.remove(0);
        assert(orig.skip(i as int)[0] == orig[i as int]);
        assert(values@ =~= orig.skip(i + 1));
        assert(key == orig[i as int].0 && entry == orig[i as int].1);
        match entry {
            RawEntry::Subkeys(sub) => {
                let mut kp = key_path.copy();
                kp.push_key(key.copy());
                proof {
                    assert(kp@.path =~= kpv.path.push(key@));
                    assert(rv[i as int].1 == RawEntryV::Subkeys(raws_view(sub@)));
                    assert(decreases_to!(measure => measure[i as int]));
                    assert(decreases_to!(measure[i as int] => measure[i as int].1));
                    assert(decreases_to!(measure[i as int].1 => measure[i as int].1->Subkeys_0));
                }
                let ghost e0 = errs_view(diag@);
                let ghost wb = warnings_view(warnings@);
                let ghost sv = raws_view(sub@);
                let m = merge_level(sub, locale, &kp, plurals_on, diag, warnings, Ghost(sv));
                let _ = merged_insert(&mut merged, key, MergedEntry::Subkeys(m));
                proof {
                    assert(errs_view(diag@) =~= d0 + (st.errs + (errs_view(diag@).skip(e0.len() as int))));
                    assert(warnings_view(warnings@) =~= w0 + (st.warns + (warnings_view(warnings@).skip(
                        wb.len() as int,
                    ))));
                }
            },
            other => {
                let pp = is_possible_plural(key.name.as_str());
                match pp {
                    Some((b, rule, form)) => {
                        let base = Key { name: to_owned(b) };
                        match other {
                            RawEntry::Value(v) => {
                                possible_insert(&mut possible, base, (form, key, rule, v));
                            },
                            _ => {
                                proof {
                                    assert(false);
                                }
                            },
                        }
                    },
                    None => {
                        let kept = match other {
                            RawEntry::Value(v) => MergedEntry::Value(MergedValue::RawValue(v)),
                            RawEntry::Defaulted => MergedEntry::Defaulted,
                            RawEntry::Dummy(d) => MergedEntry::Dummy(d),
                            RawEntry::Subkeys(_) => MergedEntry::Defaulted,
                        };
                        let _ = merged_insert(&mut merged, key, kept);
                    },
                }
            },
        }
        i = i + 1;
    }
    assert(rv.take(i as int) =~= rv);
    let ghost st = spec_pass(rv, loc, kpv, plurals_on)->0;
    let count_key = Key::count().unwrap();
    let mut disabled = false;
    let ghost mut lev_errs: Seq<ErrV> = st.errs;
    let ghost mut lev_warns: Seq<WarnV> = st.warns;
    let ghost goal = spec_pass2(
        Pass2V { merged: st.merged, errs: st.errs, warns: st.warns, disabled_reported: false },
        st.possible,
        loc,
        kpv,
        plurals_on,
        count_key@,
    );
    while possible.len() > 0
        invariant
            loc == locale@,
            kpv == key_path@,
            d0 == errs_view(old(diag)@),
            errs_view(diag@) == d0 + lev_errs,
            w0 == warnings_view(old(warnings)@),
            warnings_view(warnings@) == w0 + lev_warns,
            count_key@ == spec_key_new("var_count"@)->0,
            goal == spec_pass2(
                Pass2V { merged: mergeds_view(merged@), errs: lev_errs, warns: lev_warns, disabled_reported: disabled },
                possible_view(possible@),
                loc,
                kpv,
                plurals_on,
                count_key@,
            ),
        decreases possible@.len(),
    {
        let ghost pv = possible_view(possible@);
        let ghost cur = Pass2V {
            merged: mergeds_view(merged@),
            errs: lev_errs,
            warns: lev_warns,
            disabled_reported: disabled,
        };
        let (bkey, cands) = possible.remove(0);
        assert(pv[0] == (bkey@, cands_view(cands@)));
        assert(possible_view(possible@) =~= pv.drop_first());
        let ghost cs = cands_view(cands@);
        let ghost next = spec_base(cur, bkey@, cs, loc, kpv, plurals_on, count_key@);
        if cands.len() == 1 {
            put_back_exec(&mut merged, cands);
        } else {
            match find_other(&cands) {
                None => {
                    put_back_exec(&mut merged, cands);
                },
                Some(j) => {
                    match Key::new(bkey.name.as_str()) {
                        None => {
                            let e = Error::InvalidKeyAt {
                                key: to_owned(bkey.name.as_str()),
                                locale: locale.copy(),
                                key_path: key_path.copy(),
                            };
                            let ghost ev = e@;
                            let ghost dd = diag@;
                            diag.push(e);
                            proof {
                                lemma_errs_push(dd, e);
                                lev_errs = lev_errs.push(ev);
                            }
                        },
                        Some(k) => {
                            let mut lp = key_path.copy();
                            lp.push_key(k.copy());
                            assert(lp@.path =~= kpv.path.push(k@));
                            if !plurals_on && !disabled {
                                let e = Error::DisabledPlurals { locale: locale.copy(), key_path: lp.copy() };
                                let ghost ev = e@;
                                let ghost dd = diag@;
                                diag.push(e);
                                proof {
                                    lemma_errs_push(dd, e);
                                    lev_errs = lev_errs.push(ev);
                                }
                            }
                            disabled = disabled || !plurals_on;
                            let rule = cands[j].2;
                            let other_v = cands[j].3.copy();
                            let mut forms = PluralForms::new_from_other(other_v);
                            let conflict = build_forms_exec(&cands, rule, &mut forms);
                            if conflict {
                                let e = Error::ConflictingPluralRuleType { locale: locale.copy(), key_path: lp.copy() };
                                let ghost ev = e@;
                                let ghost dd = diag@;
                                diag.push(e);
                                proof {
                                    lemma_errs_push(dd, e);
                                    lev_errs = lev_errs.push(ev);
                                }
                            }
                            let ghost fv = forms_view(forms);
                            if !conflict {
                                let ghost wb = warnings_view(warnings@);
                                check_merged_forms(rule, &forms, locale, &lp, warnings);
                                proof {
                                    let ws = forms_warnings(fv, rule, loc, lp@);
                                    assert(warnings_view(warnings@) =~= w0 + (lev_warns + ws));
                                    lev_warns = lev_warns + ws;
                                }
                            }
                            let had = merged_insert(
                                &mut merged,
                                k,
                                MergedEntry::Value(
                                    MergedValue::Plurals(MergedPlurals { rule_type: rule, count_key: count_key.copy(), forms }),
                                ),
                            );
                            if !conflict && had {
                                let e = Error::PluralsAtNormalKey { locale: locale.copy(), key_path: lp.copy() };
                                let ghost ev = e@;
                                let ghost dd = diag@;
                                diag.push(e);
                                proof {
                                    lemma_errs_push(dd, e);
                                    lev_errs = lev_errs.push(ev);
                                }
                            }
                        },
                    }
                },
            }
        }
        assert(mergeds_view(merged@) == next.merged);
        assert(lev_errs == next.errs);
        assert(lev_warns == next.warns);
        assert(disabled == next.disabled_reported);
    }
    merged
}

/// Gathers the plurals of one level of keys, and of the levels nested in it
/// (see `spec_merge_level`): the keys `base_form` / `base_ordinal_form` of
/// a level become one plural value under `base` when an `other` form is
/// among them, and the forms that the locale's rules never select are
/// warned about. `locale` and `key_path` locate the level in the errors and
/// warnings; `plurals_on` tells whether plurals are enabled.
pub fn merge_values_plurals(
    values: Vec<(Key, RawEntry)>,
    locale: &Key,
    key_path: &KeyPath,
    plurals_on: bool,
    diag: &mut Vec<Error>,
    warnings: &mut Vec<Warning>,
) -> (res: Vec<(Key, MergedEntry)>)
    requires
        spec_merge_level(raws_view(values@), locale@, key_path@, plurals_on) is Some,
        spec_key_new("var_count"@) is Some,
    ensures
        spec_merge_level(raws_view(values@), locale@, key_path@, plurals_on) matches Some((m, errs, ws))
            && mergeds_view(res@) == m && errs_view(final(diag)@) == errs_view(old(diag)@) + errs
            && warnings_view(final(warnings)@) == warnings_view(old(warnings)@) + ws,
{
    let ghost m = raws_view(values@);
    merge_level(values, locale, key_path, plurals_on, diag, warnings, Ghost(m))
}

/// Every key named like a plural form, at every level, holds a value.
pub open spec fn gatherable(entries: Seq<(Seq<char>, RawEntryV)>) -> bool
    decreases entries,
{
    if entries.len() == 0 {
        true
    } else {
        gatherable(entries.drop_last()) && match entries.last().1 {
            RawEntryV::Subkeys(sub) => gatherable(sub),
            RawEntryV::Value(_) => true,
            _ => spec_possible_plural(entries.last().0) is None,
        }
    }
}

/// The gathering accepts exactly the levels where every plural key holds
/// a value.
pub proof fn lemma_gatherable(entries: Seq<(Seq<char>, RawEntryV)>, locale: Seq<char>, kp: KeyPathV, on: bool)
    ensures
        spec_pass(entries, locale, kp, on) is Some <==> gatherable(entries),
        spec_merge_level(entries, locale, kp, on) is Some <==> gatherable(entries),
    decreases entries,
{
    if entries.len() > 0 {
        lemma_gatherable(entries.drop_last(), locale, kp, on);
        let (key, e) = entries.last();
        match e {
            RawEntryV::Subkeys(sub) => {
                assert(decreases_to!(entries => entries[entries.len() - 1]));
                lemma_gatherable(sub, locale, push_path(kp, key), on);
            },
            _ => {},
        }
    }
}

fn gatherable_exec(values: &Vec<(Key, RawEntry)>, Ghost(measure): Ghost<Seq<(Seq<char>, RawEntryV)>>) -> (res: bool)
    requires
        measure == raws_view(values@),
    ensures
        res == gatherable(raws_view(values@)),
    decreases measure,
{
    let ghost rv = raws_view(values@);
    proof {
        lemma_raws_view(values@);
    }
    let mut i: usize = 0;
    assert(rv.take(0) =~= Seq::<(Seq<char>, RawEntryV)>::empty());
    while i < values.len()
        invariant
            measure == rv,
            rv == raws_view(values@),
            rv.len() == values@.len(),
            forall|j: int| 0 <= j < values@.len() ==> #[trigger] rv[j] == (values@[j].0@, raw_view(values@[j].1)),
            i <= values@.len(),
            gatherable(rv.take(i as int)),
        decreases values@.len() - i,
    {
        assert(rv.take(i + 1).drop_last() =~= rv.take(i as int));
        assert(rv.take(i + 1).last() == rv[i as int]);
        let ok = match &values[i].1 {
            RawEntry::Subkeys(sub) => {
                proof {
                    assert(rv[i as int].1 == RawEntryV::Subkeys(raws_view(sub@)));
                    assert(decreases_to!(measure => measure[i as int]));
                    assert(decreases_to!(measure[i as int] => measure[i as int].1));
                    assert(decreases_to!(measure[i as int].1 => measure[i as int].1->Subkeys_0));
                }
                let ghost sv = raws_view(sub@);
                gatherable_exec(sub, Ghost(sv))
            },
            RawEntry::Value(_) => true,
            _ => is_possible_plural(values[i].0.name.as_str()).is_none(),
        };
        if !ok {
            proof {
                assert forall|k: int| i + 1 <= k <= rv.len() implies !gatherable(#[trigger] rv.take(k)) by {
                    lemma_not_gatherable_extends(rv, i as int + 1, k);
                }
                assert(rv.take(rv.len() as int) =~= rv);
            }
            return false;
        }
        i = i + 1;
    }
    assert(rv.take(i as int) =~= rv);
    true
}

proof fn lemma_not_gatherable_extends(rv: Seq<(Seq<char>, RawEntryV)>, i: int, k: int)
    requires
        1 <= i <= k <= rv.len(),
        !gatherable(rv.take(i)),
    ensures
        !gatherable(rv.take(k)),
    decreases k - i,
{
    if k > i {
        lemma_not_gatherable_extends(rv, i, k - 1);
        assert(rv.take(k).drop_last() =~= rv.take(k - 1));
    }
}

/// Like `merge_values_plurals`, with `None` where the gathering does not
/// accept the level: a key named like a plural form holds no value, or the
/// count variable's name is not a valid key.
pub fn merge_values_plurals_checked(
    values: Vec<(Key, RawEntry)>,
    locale: &Key,
    key_path: &KeyPath,
    plurals_on: bool,
    diag: &mut Vec<Error>,
    warnings: &mut Vec<Warning>,
) -> (res: Option<Vec<(Key, MergedEntry)>>)
    ensures
        res is Some <==> (spec_merge_level(raws_view(values@), locale@, key_path@, plurals_on) is Some
            && spec_key_new("var_count"@) is Some),
        res matches Some(r) ==> (spec_merge_level(raws_view(values@), locale@, key_path@, plurals_on)
            matches Some((m, errs, ws)) && mergeds_view(r@) == m && errs_view(final(diag)@) == errs_view(
            old(diag)@,
        ) + errs && warnings_view(final(warnings)@) == warnings_view(old(warnings)@) + ws),
        res is None ==> final(diag)@ == old(diag)@ && final(warnings)@ == old(warnings)@,
{
    let ghost m = raws_view(values@);
    proof {
        lemma_gatherable(m, locale@, key_path@, plurals_on);
    }
    if !gatherable_exec(&values, Ghost(m)) {
        return None;
    }
    match Key::count() {
        None => None,
        Some(_) => Some(merge_values_plurals(values, locale, key_path, plurals_on, diag, warnings)),
    }
}

/// The locales' entries by locale name.
pub open spec fn raw_locales_view(l: Seq<(Key, Vec<(Key, RawEntry)>)>) -> Seq<(Seq<char>, Seq<(Seq<char>, RawEntryV)>)> {
    l.map_values(|p: (Key, Vec<(Key, RawEntry)>)| (p.0@, raws_view(p.1@)))
}

pub open spec fn opt_key_view(o: Option<Key>) -> Option<Seq<char>> {
    match o {
        Some(k) => Some(k@),
        None => None,
    }
}

/// The key path at the top of a namespace, or of the locales.
pub open spec fn top_path(namespace: Option<Seq<char>>) -> KeyPathV {
    KeyPathV { namespace, path: Seq::empty() }
}

/// The errors of gathering the plurals of the first `n` locales, in order.
pub open spec fn merge_locales_errs(
    ls: Seq<(Seq<char>, Seq<(Seq<char>, RawEntryV)>)>,
    namespace: Option<Seq<char>>,
    on: bool,
    n: int,
) -> Seq<ErrV>
    decreases n,
{
    if n <= 0 {
        Seq::empty()
    } else {
        merge_locales_errs(ls, namespace, on, n - 1) + (spec_merge_level(ls[n - 1].1, ls[n - 1].0, top_path(namespace), on)->0).1
    }
}

/// The warnings of gathering the plurals of the first `n` locales, in order.
pub open spec fn merge_locales_warns(
    ls: Seq<(Seq<char>, Seq<(Seq<char>, RawEntryV)>)>,
    namespace: Option<Seq<char>>,
    on: bool,
    n: int,
) -> Seq<WarnV>
    decreases n,
{
    if n <= 0 {
        Seq::empty()
    } else {
        merge_locales_warns(ls, namespace, on, n - 1) + (spec_merge_level(ls[n - 1].1, ls[n - 1].0, top_path(namespace), on)->0).2
    }
}

/// Gathers the plurals of every locale (of one namespace, or of all), in
/// order (see `merge_values_plurals`).
pub fn merge_locales_plurals(
    locales: Vec<(Key, Vec<(Key, RawEntry)>)>,
    namespace: Option<Key>,
    plurals_on: bool,
    diag: &mut Vec<Error>,
    warnings: &mut Vec<Warning>,
) -> (res: Vec<(Key, Vec<(Key, MergedEntry)>)>)
    requires
        spec_key_new("var_count"@) is Some,
        forall|i: int|
            0 <= i < locales@.len() ==> spec_merge_level(
                raws_view(#[trigger] locales@[i].1@),
                locales@[i].0@,
                top_path(opt_key_view(namespace)),
                plurals_on,
            ) is Some,
    ensures
        res@.len() == locales@.len(),
        forall|i: int|
            0 <= i < res@.len() ==> (#[trigger] res@[i]).0 == locales@[i].0 && mergeds_view(res@[i].1@)
                == (spec_merge_level(
                raws_view(locales@[i].1@),
                locales@[i].0@,
                top_path(opt_key_view(namespace)),
                plurals_on,
            )->0).0,
        errs_view(final(diag)@) == errs_view(old(diag)@) + merge_locales_errs(
            raw_locales_view(locales@),
            opt_key_view(namespace),
            plurals_on,
            locales@.len() as int,
        ),
        warnings_view(final(warnings)@) == warnings_view(old(warnings)@) + merge_locales_warns(
            raw_locales_view(locales@),
            opt_key_view(namespace),
            plurals_on,
            locales@.len() as int,
        ),
{
    let ghost ns = opt_key_view(namespace);
    let ghost all = locales@;
    assert(all.len() == locales.len());
    let ghost lv = raw_locales_view(all);
    let ghost d0 = errs_view(diag@);
    let ghost w0 = warnings_view(warnings@);
    let key_path = KeyPath::new(namespace);
    assert(key_path@ == top_path(ns)) by {
        assert(key_path@.path =~= Seq::<Seq<char>>::empty());
    }
    let mut rest = locales;
    let mut out: Vec<(Key, Vec<(Key, MergedEntry)>)> = Vec::new();
    let mut i: usize = 0;
    assert(all.skip(0) =~= all);
    assert(d0 + merge_locales_errs(lv, ns, plurals_on, 0) =~= d0);
    assert(w0 + merge_locales_warns(lv, ns, plurals_on, 0) =~= w0);
    while rest.len() > 0
        invariant
            i <= all.len(),
            all.len() <= usize::MAX,
            rest@ == all.skip(i as int),
            lv == raw_locales_view(all),
            key_path@ == top_path(ns),
            spec_key_new("var_count"@) is Some,
            forall|j: int|
                0 <= j < all.len() ==> spec_merge_level(raws_view(#[trigger] all[j].1@), all[j].0@, top_path(ns), plurals_on)
                    is Some,
            out@.len() == i,
            forall|j: int|
                0 <= j < i ==> (#[trigger] out@[j]).0 == all[j].0 && mergeds_view(out@[j].1@) == (spec_merge_level(
                    raws_view(all[j].1@),
                    all[j].0@,
                    top_path(ns),
                    plurals_on,
                )->0).0,
            errs_view(diag@) == d0 + merge_locales_errs(lv, ns, plurals_on, i as int),
            warnings_view(warnings@) == w0 + merge_locales_warns(lv, ns, plurals_on, i as int),
        decreases all.len() - i,
    {
        assert(i < all.len()) by {
            if i >= all.len() {
                assert(all.skip(i as int).len() == 0);
            }
        }
        assert(rest@[0] == all[i as int]);
        let (name, values) = rest.remove(0);
        assert(lv[i as int] == (name@, raws_view(values@)));
        let ghost before = errs_view(diag@);
        let merged = merge_values_plurals(values, &name, &key_path, plurals_on, diag, warnings);
        proof {
            assert(errs_view(diag@) =~= d0 + merge_locales_errs(lv, ns, plurals_on, i + 1));
            assert(warnings_view(warnings@) =~= w0 + merge_locales_warns(lv, ns, plurals_on, i + 1));
        }
        out.push((name, merged));
        assert(rest@ =~= all.skip(i + 1));
        i = i + 1;
    }
    assert(i == all.len()) by {
        if i < all.len() {
            assert(all.skip(i as int).len() > 0);
        }
    }
    out
}

} // verus!
