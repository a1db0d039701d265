//! What a translation key needs in every locale: either a literal of one
//! kind, or interpolation keys (components, self-closed components,
//! variables with their bounds and plural counts). The default locale's
//! value sets it; each other locale's value is merged in.

use vstd::prelude::*;
use crate::builders::{
    VarInfos, VarInfosV, bound_before, bounds_insert, bounds_put, empty_var, find_slot, is_slot, keys_of,
    lemma_map_put_get_other, lemma_map_put_get_same, lemma_slot, map_get, map_put, same_bound,
};
use crate::defaults::{DefaultTo, DefaultedLocales, pairs_of_keys};
use crate::error::Error;
use crate::indexer::StringIndexer;
use crate::interning::index_value;
use crate::key::{Key, KeyPath};
use crate::plurals::PluralForm;
use crate::reduce::{fk_resolved, literal_type, spec_reduce};
use crate::value::{
    Attribute, AttributeV, AttributeValue, AttributeValueV, Dummy, DummyV, attrs_view, FkV, ForeignKey, LiteralType, ParsedValue, ValueV, VarBound, lemma_view_forms_len,
    lemma_view_values_len, view_forms, view_value, view_values,
};

verus! {

/// The interpolation keys of a translation key, each set kept sorted by
/// name: components used with an inner value, components used
/// self-closed (a name may be in both), and variables.
#[derive(Debug, PartialEq)]
pub struct LocaleKeys {
    pub components: Vec<(Key, ())>,
    pub components_self_closed: Vec<(Key, ())>,
    pub variables: Vec<(Key, VarInfos)>,
}

pub struct LocaleKeysV {
    pub comps: Seq<(Seq<char>, ())>,
    pub closed: Seq<(Seq<char>, ())>,
    pub vars: Seq<(Seq<char>, VarInfosV)>,
}

pub open spec fn set_view(s: Seq<(Key, ())>) -> Seq<(Seq<char>, ())> {
    s.map_values(|p: (Key, ())| (p.0@, ()))
}

pub open spec fn var_table_view(v: Seq<(Key, VarInfos)>) -> Seq<(Seq<char>, VarInfosV)> {
    v.map_values(|p: (Key, VarInfos)| (p.0@, p.1@))
}

impl View for LocaleKeys {
    type V = LocaleKeysV;

    open spec fn view(&self) -> LocaleKeysV {
        LocaleKeysV {
            comps: set_view(self.components@),
            closed: set_view(self.components_self_closed@),
            vars: var_table_view(self.variables@),
        }
    }
}

/// A key's requirement: a literal of one kind, or interpolation keys.
#[derive(Debug, PartialEq)]
pub enum InterpolOrLit {
    Interpol(LocaleKeys),
    Lit(LiteralType),
}

pub enum InterpolOrLitV {
    Interpol(LocaleKeysV),
    Lit(LiteralType),
}

impl View for InterpolOrLit {
    type V = InterpolOrLitV;

    open spec fn view(&self) -> InterpolOrLitV {
        match self {
            InterpolOrLit::Interpol(k) => InterpolOrLitV::Interpol(k@),
            InterpolOrLit::Lit(t) => InterpolOrLitV::Lit(*t),
        }
    }
}

pub open spec fn no_keys() -> LocaleKeysV {
    LocaleKeysV { comps: Seq::empty(), closed: Seq::empty(), vars: Seq::empty() }
}

/// The interpolation keys of a requirement; a literal requirement has none.
pub open spec fn keys_of_req(x: InterpolOrLitV) -> LocaleKeysV {
    match x {
        InterpolOrLitV::Interpol(k) => k,
        InterpolOrLitV::Lit(_) => no_keys(),
    }
}

pub open spec fn lk_var(k: LocaleKeysV, key: Seq<char>, b: VarBound) -> LocaleKeysV {
    let info = match map_get(k.vars, key) {
        Some(i) => i,
        None => empty_var(),
    };
    LocaleKeysV {
        vars: map_put(k.vars, key, VarInfosV { bounds: bounds_put(info.bounds, b), plural: info.plural }),
        ..k
    }
}

pub open spec fn lk_count(k: LocaleKeysV, key: Seq<char>) -> LocaleKeysV {
    let info = match map_get(k.vars, key) {
        Some(i) => i,
        None => empty_var(),
    };
    LocaleKeysV { vars: map_put(k.vars, key, VarInfosV { bounds: info.bounds, plural: true }), ..k }
}

pub open spec fn lk_comp(k: LocaleKeysV, key: Seq<char>) -> LocaleKeysV {
    LocaleKeysV { comps: map_put(k.comps, key, ()), ..k }
}

pub open spec fn lk_closed(k: LocaleKeysV, key: Seq<char>) -> LocaleKeysV {
    LocaleKeysV { closed: map_put(k.closed, key, ()), ..k }
}

pub open spec fn lk_dummies(k: LocaleKeysV, ds: Seq<DummyV>) -> LocaleKeysV
    decreases ds.len(),
{
    if ds.len() == 0 {
        k
    } else {
        let k1 = lk_dummies(k, ds.drop_last());
        match ds.last() {
            DummyV::Variable(key) => lk_var(k1, key, VarBound::Dummy),
            DummyV::Component(key) => lk_comp(k1, key),
        }
    }
}

/// The variables used as attribute values added, in order, each with the
/// attribute-value bound.
pub open spec fn attr_vars_into(attrs: Seq<AttributeV>, k: LocaleKeysV) -> LocaleKeysV
    decreases attrs.len(),
{
    if attrs.len() == 0 {
        k
    } else {
        let k1 = attr_vars_into(attrs.drop_last(), k);
        match attrs.last().value {
            Some(AttributeValueV::Variable(v)) => lk_var(k1, v, VarBound::AttributeValue),
            _ => k1,
        }
    }
}

/// The requirement `x` with the needs of value `v` added; `top` when `v`
/// is the whole value of the key, where a literal sets the literal kind.
/// A variable adds its bound; a component its inner needs, then itself;
/// a plural marks its count variable, then adds its forms' and `other`'s
/// needs; a linked foreign key what it is linked to. Anything that adds a
/// need turns a literal requirement into interpolation keys.
pub open spec fn keys_into(v: ValueV, x: InterpolOrLitV, top: bool) -> InterpolOrLitV
    decreases v, 1nat,
{
    match v {
        ValueV::Literal(l) => if top {
            InterpolOrLitV::Lit(literal_type(l))
        } else {
            x
        },
        ValueV::Variable(key, b) => InterpolOrLitV::Interpol(lk_var(keys_of_req(x), key, b)),
        ValueV::Component(key, inner, attrs) => {
            let x1 = InterpolOrLitV::Interpol(attr_vars_into(attrs, keys_of_req(x)));
            match inner {
                Some(b) => InterpolOrLitV::Interpol(lk_comp(keys_of_req(keys_into(*b, x1, false)), key)),
                None => InterpolOrLitV::Interpol(lk_closed(keys_of_req(x1), key)),
            }
        },
        ValueV::Dummy(ds) => InterpolOrLitV::Interpol(lk_dummies(keys_of_req(x), ds)),
        ValueV::Bloc(vs) => keys_into_seq(vs, x),
        ValueV::ForeignKey(FkV::Resolved(b)) => keys_into(*b, x, false),
        ValueV::Plurals(p) => keys_into(
            *p.other,
            keys_into_forms(p.forms, InterpolOrLitV::Interpol(lk_count(keys_of_req(x), p.count_key))),
            false,
        ),
        _ => x,
    }
}

pub open spec fn keys_into_seq(vs: Seq<ValueV>, x: InterpolOrLitV) -> InterpolOrLitV
    decreases vs, 1nat,
{
    if vs.len() == 0 {
        x
    } else {
        keys_into(vs.last(), keys_into_seq(vs.drop_last(), x), false)
    }
}

pub open spec fn keys_into_forms(fs: Seq<(PluralForm, ValueV)>, x: InterpolOrLitV) -> InterpolOrLitV
    decreases fs, 1nat,
{
    if fs.len() == 0 {
        x
    } else {
        keys_into(fs.last().1, keys_into_forms(fs.drop_last(), x), false)
    }
}

/// The requirement a key's value sets on its own: a top-level literal sets
/// its kind; anything else its interpolation keys.
pub open spec fn spec_get_keys(v: ValueV) -> InterpolOrLitV {
    keys_into(v, InterpolOrLitV::Lit(LiteralType::String), true)
}

/// A bound of the set counts as `b` (same rank and name).
pub open spec fn has_bound(bs: Seq<VarBound>, b: VarBound) -> bool {
    exists|j: int| 0 <= j < bs.len() && same_bound(#[trigger] bs[j], b)
}

/// The keys hold variable `key` with bound `b`.
pub open spec fn has_var(k: LocaleKeysV, key: Seq<char>, b: VarBound) -> bool {
    map_get(k.vars, key) matches Some(i) && has_bound(i.bounds, b)
}

proof fn lemma_bounds_put_has(s: Seq<VarBound>, b: VarBound, c: VarBound)
    ensures
        has_bound(bounds_put(s, b), b),
        has_bound(s, c) ==> has_bound(bounds_put(s, b), c),
    decreases s.len(),
{
    let r = bounds_put(s, b);
    if s.len() == 0 {
        assert(same_bound(r[0], b));
    } else if same_bound(s[0], b) {
        assert(same_bound(r[0], b));
    } else if bound_before(b, s[0]) {
        assert(same_bound(r[0], b));
        if has_bound(s, c) {
            let j = choose|j: int| 0 <= j < s.len() && same_bound(#[trigger] s[j], c);
            assert(r[j + 1] == s[j]);
        }
    } else {
        lemma_bounds_put_has(s.drop_first(), b, c);
        let t = bounds_put(s.drop_first(), b);
        let j = choose|j: int| 0 <= j < t.len() && same_bound(#[trigger] t[j], b);
        assert(r[j + 1] == t[j]);
        if has_bound(s, c) {
            let j2 = choose|j: int| 0 <= j < s.len() && same_bound(#[trigger] s[j], c);
            if j2 == 0 {
                assert(r[0] == s[0]);
            } else {
                assert(s.drop_first()[j2 - 1] == s[j2]);
                let j3 = choose|j: int| 0 <= j < t.len() && same_bound(#[trigger] t[j], c);
                assert(r[j3 + 1] == t[j3]);
            }
        }
    }
}

proof fn lemma_lk_var_has(k: LocaleKeysV, key: Seq<char>, b: VarBound, key2: Seq<char>, c: VarBound)
    ensures
        has_var(lk_var(k, key, b), key, b),
        has_var(k, key2, c) ==> has_var(lk_var(k, key, b), key2, c),
{
    let info = match map_get(k.vars, key) {
        Some(i) => i,
        None => empty_var(),
    };
    let nv = VarInfosV { bounds: bounds_put(info.bounds, b), plural: info.plural };
    lemma_map_put_get_same(k.vars, key, nv);
    lemma_bounds_put_has(info.bounds, b, c);
    if key2 != key {
        lemma_map_put_get_other(k.vars, key, nv, key2);
    }
}

proof fn lemma_lk_count_has(k: LocaleKeysV, key: Seq<char>, key2: Seq<char>, c: VarBound)
    ensures
        has_var(k, key2, c) ==> has_var(lk_count(k, key), key2, c),
{
    let info = match map_get(k.vars, key) {
        Some(i) => i,
        None => empty_var(),
    };
    let nv = VarInfosV { bounds: info.bounds, plural: true };
    lemma_map_put_get_same(k.vars, key, nv);
    if key2 != key {
        lemma_map_put_get_other(k.vars, key, nv, key2);
    }
}

/// One need a value sets on its translation key: a variable with a bound,
/// a plural count variable, a component used with an inner value, or one
/// used self-closed.
pub enum Need {
    Var(Seq<char>, VarBound),
    Count(Seq<char>),
    Comp(Seq<char>),
    Closed(Seq<char>),
}

/// The keys hold need `nd`.
pub open spec fn has_need(k: LocaleKeysV, nd: Need) -> bool {
    match nd {
        Need::Var(key, b) => has_var(k, key, b),
        Need::Count(key) => map_get(k.vars, key) matches Some(i) && i.plural,
        Need::Comp(key) => map_get(k.comps, key) is Some,
        Need::Closed(key) => map_get(k.closed, key) is Some,
    }
}

/// An attribute's value is variable `nd` names, with the attribute-value
/// bound.
pub open spec fn attrs_need(attrs: Seq<AttributeV>, nd: Need) -> bool {
    exists|i: int|
        0 <= i < attrs.len() && ((#[trigger] attrs[i]).value matches Some(AttributeValueV::Variable(v)) && nd
            == Need::Var(v, VarBound::AttributeValue))
}

/// A placeholder stands for need `nd`.
pub open spec fn dummies_need(ds: Seq<DummyV>, nd: Need) -> bool {
    exists|i: int|
        0 <= i < ds.len() && match #[trigger] ds[i] {
            DummyV::Variable(key) => nd == Need::Var(key, VarBound::Dummy),
            DummyV::Component(key) => nd == Need::Comp(key),
        }
}

/// Value `v` sets need `nd`, wherever it stands: a variable, a component
/// (with or without inner value, its attributes' variables, its inner
/// value's needs), a placeholder, a bloc, a linked foreign key, or a plural
/// (its count variable, every form, `other` included).
pub open spec fn uses_need(v: ValueV, nd: Need) -> bool
    decreases v,
{
    match v {
        ValueV::Variable(k, bb) => nd == Need::Var(k, bb),
        ValueV::Component(ck, inner, attrs) => attrs_need(attrs, nd) || match inner {
            Some(x) => nd == Need::Comp(ck) || uses_need(*x, nd),
            None => nd == Need::Closed(ck),
        },
        ValueV::Dummy(ds) => dummies_need(ds, nd),
        ValueV::Bloc(vs) => uses_need_seq(vs, nd),
        ValueV::ForeignKey(FkV::Resolved(x)) => uses_need(*x, nd),
        ValueV::Plurals(p) => nd == Need::Count(p.count_key) || uses_need(*p.other, nd) || uses_need_forms(p.forms, nd),
        _ => false,
    }
}

pub open spec fn uses_need_seq(vs: Seq<ValueV>, nd: Need) -> bool
    decreases vs,
{
    vs.len() > 0 && (uses_need_seq(vs.drop_last(), nd) || uses_need(vs.last(), nd))
}

pub open spec fn uses_need_forms(fs: Seq<(PluralForm, ValueV)>, nd: Need) -> bool
    decreases fs,
{
    fs.len() > 0 && (uses_need_forms(fs.drop_last(), nd) || uses_need(fs.last().1, nd))
}

proof fn lemma_need_var(k: LocaleKeysV, key: Seq<char>, b: VarBound, nd: Need)
    ensures
        has_need(lk_var(k, key, b), Need::Var(key, b)),
        has_need(k, nd) ==> has_need(lk_var(k, key, b), nd),
{
    let info = match map_get(k.vars, key) {
        Some(i) => i,
        None => empty_var(),
    };
    let nv = VarInfosV { bounds: bounds_put(info.bounds, b), plural: info.plural };
    lemma_map_put_get_same(k.vars, key, nv);
    match nd {
        Need::Var(key2, c) => lemma_lk_var_has(k, key, b, key2, c),
        Need::Count(key2) => {
            if key2 != key {
                lemma_map_put_get_other(k.vars, key, nv, key2);
            }
        },
        _ => {},
    }
    lemma_lk_var_has(k, key, b, key, b);
}

proof fn lemma_need_count(k: LocaleKeysV, key: Seq<char>, nd: Need)
    ensures
        has_need(lk_count(k, key), Need::Count(key)),
        has_need(k, nd) ==> has_need(lk_count(k, key), nd),
{
    let info = match map_get(k.vars, key) {
        Some(i) => i,
        None => empty_var(),
    };
    let nv = VarInfosV { bounds: info.bounds, plural: true };
    lemma_map_put_get_same(k.vars, key, nv);
    match nd {
        Need::Var(key2, c) => lemma_lk_count_has(k, key, key2, c),
        Need::Count(key2) => {
            if key2 != key {
                lemma_map_put_get_other(k.vars, key, nv, key2);
            }
        },
        _ => {},
    }
}

proof fn lemma_need_comp(k: LocaleKeysV, key: Seq<char>, nd: Need)
    ensures
        has_need(lk_comp(k, key), Need::Comp(key)),
        has_need(k, nd) ==> has_need(lk_comp(k, key), nd),
{
    lemma_map_put_get_same(k.comps, key, ());
    if let Need::Comp(key2) = nd {
        if key2 != key {
            lemma_map_put_get_other(k.comps, key, (), key2);
        }
    }
}

proof fn lemma_need_closed(k: LocaleKeysV, key: Seq<char>, nd: Need)
    ensures
        has_need(lk_closed(k, key), Need::Closed(key)),
        has_need(k, nd) ==> has_need(lk_closed(k, key), nd),
{
    lemma_map_put_get_same(k.closed, key, ());
    if let Need::Closed(key2) = nd {
        if key2 != key {
            lemma_map_put_get_other(k.closed, key, (), key2);
        }
    }
}

proof fn lemma_need_dummies(k: LocaleKeysV, ds: Seq<DummyV>, nd: Need)
    ensures
        has_need(k, nd) || dummies_need(ds, nd) ==> has_need(lk_dummies(k, ds), nd),
    decreases ds.len(),
{
    if ds.len() > 0 {
        let init = ds.drop_last();
        let k1 = lk_dummies(k, init);
        if dummies_need(ds, nd) && !dummies_need(init, nd) {
            let i = choose|i: int|
                0 <= i < ds.len() && match #[trigger] ds[i] {
                    DummyV::Variable(key) => nd == Need::Var(key, VarBound::Dummy),
                    DummyV::Component(key) => nd == Need::Comp(key),
                };
            if i < ds.len() - 1 {
                assert(init[i] == ds[i]);
            }
        }
        lemma_need_dummies(k, init, nd);
        match ds.last() {
            DummyV::Variable(key) => lemma_need_var(k1, key, VarBound::Dummy, nd),
            DummyV::Component(key) => lemma_need_comp(k1, key, nd),
        }
    }
}

proof fn lemma_need_attrs(attrs: Seq<AttributeV>, k: LocaleKeysV, nd: Need)
    ensures
        has_need(k, nd) || attrs_need(attrs, nd) ==> has_need(attr_vars_into(attrs, k), nd),
    decreases attrs.len(),
{
    if attrs.len() > 0 {
        let init = attrs.drop_last();
        let k1 = attr_vars_into(init, k);
        if attrs_need(attrs, nd) && !attrs_need(init, nd) {
            let i = choose|i: int|
                0 <= i < attrs.len() && ((#[trigger] attrs[i]).value matches Some(AttributeValueV::Variable(v)) && nd
                    == Need::Var(v, VarBound::AttributeValue));
            if i < attrs.len() - 1 {
                assert(init[i] == attrs[i]);
            }
        }
        lemma_need_attrs(init, k, nd);
        match attrs.last().value {
            Some(AttributeValueV::Variable(v)) => lemma_need_var(k1, v, VarBound::AttributeValue, nd),
            _ => {},
        }
    }
}

proof fn lemma_keys_into_need(v: ValueV, x: InterpolOrLitV, nd: Need)
    ensures
        has_need(keys_of_req(x), nd) || uses_need(v, nd) ==> has_need(keys_of_req(keys_into(v, x, false)), nd),
    decreases v, 1nat,
{
    match v {
        ValueV::Variable(k, bb) => lemma_need_var(keys_of_req(x), k, bb, nd),
        ValueV::Component(ck, inner, attrs) => {
            let k1 = attr_vars_into(attrs, keys_of_req(x));
            let x1 = InterpolOrLitV::Interpol(k1);
            lemma_need_attrs(attrs, keys_of_req(x), nd);
            match inner {
                Some(bx) => {
                    lemma_keys_into_need(*bx, x1, nd);
                    lemma_need_comp(keys_of_req(keys_into(*bx, x1, false)), ck, nd);
                },
                None => lemma_need_closed(k1, ck, nd),
            }
        },
        ValueV::Dummy(ds) => lemma_need_dummies(keys_of_req(x), ds, nd),
        ValueV::Bloc(vs) => lemma_keys_into_seq_need(vs, x, nd),
        ValueV::ForeignKey(FkV::Resolved(bx)) => lemma_keys_into_need(*bx, x, nd),
        ValueV::Plurals(p) => {
            let x0 = InterpolOrLitV::Interpol(lk_count(keys_of_req(x), p.count_key));
            lemma_need_count(keys_of_req(x), p.count_key, nd);
            lemma_keys_into_forms_need(p.forms, x0, nd);
            lemma_keys_into_need(*p.other, keys_into_forms(p.forms, x0), nd);
        },
        _ => {},
    }
}

proof fn lemma_keys_into_seq_need(vs: Seq<ValueV>, x: InterpolOrLitV, nd: Need)
    ensures
        has_need(keys_of_req(x), nd) || uses_need_seq(vs, nd) ==> has_need(keys_of_req(keys_into_seq(vs, x)), nd),
    decreases vs, 1nat,
{
    if vs.len() > 0 {
        lemma_keys_into_seq_need(vs.drop_last(), x, nd);
        lemma_keys_into_need(vs.last(), keys_into_seq(vs.drop_last(), x), nd);
    }
}

proof fn lemma_keys_into_forms_need(fs: Seq<(PluralForm, ValueV)>, x: InterpolOrLitV, nd: Need)
    ensures
        has_need(keys_of_req(x), nd) || uses_need_forms(fs, nd) ==> has_need(
            keys_of_req(keys_into_forms(fs, x)),
            nd,
        ),
    decreases fs, 1nat,
{
    if fs.len() > 0 {
        lemma_keys_into_forms_need(fs.drop_last(), x, nd);
        lemma_keys_into_need(fs.last().1, keys_into_forms(fs.drop_last(), x), nd);
    }
}

/// Every need a value sets, wherever it stands (variables with their
/// bounds, plural count variables, components with or without inner
/// value, attribute variables, placeholders; inside components, blocs,
/// linked foreign keys and every form of a plural, `other` included), is
/// among the interpolation keys its translation key requires; and adding a
/// value's needs to a requirement keeps those it held.
pub proof fn law_keys_cover_needs(v: ValueV, x: InterpolOrLitV, nd: Need)
    ensures
        uses_need(v, nd) ==> spec_get_keys(v) is Interpol && has_need(keys_of_req(spec_get_keys(v)), nd),
        has_need(keys_of_req(x), nd) ==> has_need(keys_of_req(keys_into(v, x, false)), nd),
{
    lemma_keys_into_need(v, x, nd);
    let l = InterpolOrLitV::Lit(LiteralType::String);
    lemma_keys_into_need(v, l, nd);
    if uses_need(v, nd) {
        assert(!(v is Literal));
        assert(spec_get_keys(v) == keys_into(v, l, false));
        if spec_get_keys(v) is Lit {
            assert(keys_of_req(spec_get_keys(v)) == no_keys());
        }
    }
}

/// A need held answers a need used: a variable with a bound of the same
/// rank and name, anything else itself.
pub open spec fn need_matches(have: Need, used: Need) -> bool {
    match (have, used) {
        (Need::Var(k1, b1), Need::Var(k2, b2)) => k1 == k2 && same_bound(b1, b2),
        _ => have == used,
    }
}

proof fn lemma_bounds_put_only(s: Seq<VarBound>, b: VarBound, c: VarBound)
    ensures
        has_bound(bounds_put(s, b), c) ==> has_bound(s, c) || same_bound(b, c),
    decreases s.len(),
{
    let r = bounds_put(s, b);
    if has_bound(r, c) {
        let j = choose|j: int| 0 <= j < r.len() && same_bound(#[trigger] r[j], c);
        if s.len() == 0 {
        } else if same_bound(s[0], b) {
            assert(r[j] == s[j]);
        } else if bound_before(b, s[0]) {
            if j > 0 {
                assert(r[j] == s[j - 1]);
            }
        } else {
            if j == 0 {
                assert(r[0] == s[0]);
            } else {
                let t = bounds_put(s.drop_first(), b);
                assert(r[j] == t[j - 1]);
                lemma_bounds_put_only(s.drop_first(), b, c);
                if has_bound(s.drop_first(), c) {
                    let jj = choose|jj: int| 0 <= jj < s.drop_first().len() && same_bound(#[trigger] s.drop_first()[jj], c);
                    assert(s[jj + 1] == s.drop_first()[jj]);
                }
            }
        }
    }
}

proof fn lemma_need_var_only(k: LocaleKeysV, key: Seq<char>, b: VarBound, nd: Need)
    ensures
        has_need(lk_var(k, key, b), nd) ==> has_need(k, nd) || need_matches(nd, Need::Var(key, b)),
{
    let info = match map_get(k.vars, key) {
        Some(i) => i,
        None => empty_var(),
    };
    let nv = VarInfosV { bounds: bounds_put(info.bounds, b), plural: info.plural };
    lemma_map_put_get_same(k.vars, key, nv);
    match nd {
        Need::Var(key2, c) => {
            if key2 != key {
                lemma_map_put_get_other(k.vars, key, nv, key2);
            } else {
                lemma_bounds_put_only(info.bounds, b, c);
                if map_get(k.vars, key) is None {
                    assert(!has_bound(Seq::<VarBound>::empty(), c));
                }
            }
        },
        Need::Count(key2) => {
            if key2 != key {
                lemma_map_put_get_other(k.vars, key, nv, key2);
            }
        },
        _ => {},
    }
}

proof fn lemma_need_count_only(k: LocaleKeysV, key: Seq<char>, nd: Need)
    ensures
        has_need(lk_count(k, key), nd) ==> has_need(k, nd) || nd == Need::Count(key),
{
    let info = match map_get(k.vars, key) {
        Some(i) => i,
        None => empty_var(),
    };
    let nv = VarInfosV { bounds: info.bounds, plural: true };
    lemma_map_put_get_same(k.vars, key, nv);
    match nd {
        Need::Var(key2, c) => {
            if key2 != key {
                lemma_map_put_get_other(k.vars, key, nv, key2);
            } else if map_get(k.vars, key) is None {
                assert(!has_bound(Seq::<VarBound>::empty(), c));
            }
        },
        Need::Count(key2) => {
            if key2 != key {
                lemma_map_put_get_other(k.vars, key, nv, key2);
            }
        },
        _ => {},
    }
}

proof fn lemma_need_comp_only(k: LocaleKeysV, key: Seq<char>, nd: Need)
    ensures
        has_need(lk_comp(k, key), nd) ==> has_need(k, nd) || nd == Need::Comp(key),
{
    if let Need::Comp(key2) = nd {
        if key2 != key {
            lemma_map_put_get_other(k.comps, key, (), key2);
        }
    }
}

proof fn lemma_need_closed_only(k: LocaleKeysV, key: Seq<char>, nd: Need)
    ensures
        has_need(lk_closed(k, key), nd) ==> has_need(k, nd) || nd == Need::Closed(key),
{
    if let Need::Closed(key2) = nd {
        if key2 != key {
            lemma_map_put_get_other(k.closed, key, (), key2);
        }
    }
}

proof fn lemma_need_dummies_only(k: LocaleKeysV, ds: Seq<DummyV>, nd: Need)
    ensures
        has_need(lk_dummies(k, ds), nd) ==> has_need(k, nd) || exists|u: Need|
            #[trigger] dummies_need(ds, u) && need_matches(nd, u),
    decreases ds.len(),
{
    if ds.len() > 0 {
        let init = ds.drop_last();
        let k1 = lk_dummies(k, init);
        lemma_need_dummies_only(k, init, nd);
        let last = ds.len() - 1;
        assert(ds[last] == ds.last());
        match ds.last() {
            DummyV::Variable(key) => {
                lemma_need_var_only(k1, key, VarBound::Dummy, nd);
                let u = Need::Var(key, VarBound::Dummy);
                assert(dummies_need(ds, u));
            },
            DummyV::Component(key) => {
                lemma_need_comp_only(k1, key, nd);
                let u = Need::Comp(key);
                assert(dummies_need(ds, u));
            },
        }
        if has_need(k1, nd) && !has_need(k, nd) {
            let u = choose|u: Need| #[trigger] dummies_need(init, u) && need_matches(nd, u);
            let i = choose|i: int|
                0 <= i < init.len() && match #[trigger] init[i] {
                    DummyV::Variable(key) => u == Need::Var(key, VarBound::Dummy),
                    DummyV::Component(key) => u == Need::Comp(key),
                };
            assert(ds[i] == init[i]);
            assert(dummies_need(ds, u));
        }
    }
}

proof fn lemma_need_attrs_only(attrs: Seq<AttributeV>, k: LocaleKeysV, nd: Need)
    ensures
        has_need(attr_vars_into(attrs, k), nd) ==> has_need(k, nd) || exists|u: Need|
            #[trigger] attrs_need(attrs, u) && need_matches(nd, u),
    decreases attrs.len(),
{
    if attrs.len() > 0 {
        let init = attrs.drop_last();
        let k1 = attr_vars_into(init, k);
        lemma_need_attrs_only(init, k, nd);
        let last = attrs.len() - 1;
        assert(attrs[last] == attrs.last());
        match attrs.last().value {
            Some(AttributeValueV::Variable(v)) => {
                lemma_need_var_only(k1, v, VarBound::AttributeValue, nd);
                let u = Need::Var(v, VarBound::AttributeValue);
                assert(attrs_need(attrs, u));
            },
            _ => {},
        }
        if has_need(k1, nd) && !has_need(k, nd) {
            let u = choose|u: Need| #[trigger] attrs_need(init, u) && need_matches(nd, u);
            let i = choose|i: int|
                0 <= i < init.len() && ((#[trigger] init[i]).value matches Some(AttributeValueV::Variable(v)) && u
                    == Need::Var(v, VarBound::AttributeValue));
            assert(attrs[i] == init[i]);
            assert(attrs_need(attrs, u));
        }
    }
}

proof fn lemma_keys_into_only(v: ValueV, x: InterpolOrLitV, nd: Need)
    ensures
        has_need(keys_of_req(keys_into(v, x, false)), nd) ==> has_need(keys_of_req(x), nd) || exists|u: Need|
            #[trigger] uses_need(v, u) && need_matches(nd, u),
    decreases v, 1nat,
{
    match v {
        ValueV::Variable(k, bb) => {
            lemma_need_var_only(keys_of_req(x), k, bb, nd);
            assert(uses_need(v, Need::Var(k, bb)));
        },
        ValueV::Component(ck, inner, attrs) => {
            let k1 = attr_vars_into(attrs, keys_of_req(x));
            let x1 = InterpolOrLitV::Interpol(k1);
            lemma_need_attrs_only(attrs, keys_of_req(x), nd);
            if has_need(k1, nd) && !has_need(keys_of_req(x), nd) {
                let u = choose|u: Need| #[trigger] attrs_need(attrs, u) && need_matches(nd, u);
                assert(uses_need(v, u));
            }
            match inner {
                Some(bx) => {
                    let ki = keys_of_req(keys_into(*bx, x1, false));
                    lemma_keys_into_only(*bx, x1, nd);
                    lemma_need_comp_only(ki, ck, nd);
                    assert(uses_need(v, Need::Comp(ck)));
                    if has_need(ki, nd) && !has_need(k1, nd) {
                        let u = choose|u: Need| #[trigger] uses_need(*bx, u) && need_matches(nd, u);
                        assert(uses_need(v, u));
                    }
                },
                None => {
                    lemma_need_closed_only(k1, ck, nd);
                    assert(uses_need(v, Need::Closed(ck)));
                },
            }
        },
        ValueV::Dummy(ds) => {
            lemma_need_dummies_only(keys_of_req(x), ds, nd);
            if has_need(lk_dummies(keys_of_req(x), ds), nd) && !has_need(keys_of_req(x), nd) {
                let u = choose|u: Need| #[trigger] dummies_need(ds, u) && need_matches(nd, u);
                assert(uses_need(v, u));
            }
        },
        ValueV::Bloc(vs) => {
            lemma_keys_into_seq_only(vs, x, nd);
            if has_need(keys_of_req(keys_into_seq(vs, x)), nd) && !has_need(keys_of_req(x), nd) {
                let u = choose|u: Need| #[trigger] uses_need_seq(vs, u) && need_matches(nd, u);
                assert(uses_need(v, u));
            }
        },
        ValueV::ForeignKey(FkV::Resolved(bx)) => {
            lemma_keys_into_only(*bx, x, nd);
            if has_need(keys_of_req(keys_into(*bx, x, false)), nd) && !has_need(keys_of_req(x), nd) {
                let u = choose|u: Need| #[trigger] uses_need(*bx, u) && need_matches(nd, u);
                assert(uses_need(v, u));
            }
        },
        ValueV::Plurals(p) => {
            let kc = lk_count(keys_of_req(x), p.count_key);
            let x0 = InterpolOrLitV::Interpol(kc);
            let xf = keys_into_forms(p.forms, x0);
            lemma_need_count_only(keys_of_req(x), p.count_key, nd);
            assert(uses_need(v, Need::Count(p.count_key)));
            lemma_keys_into_forms_only(p.forms, x0, nd);
            lemma_keys_into_only(*p.other, xf, nd);
            if has_need(keys_of_req(keys_into(*p.other, xf, false)), nd) && !has_need(keys_of_req(xf), nd) {
                let u = choose|u: Need| #[trigger] uses_need(*p.other, u) && need_matches(nd, u);
                assert(uses_need(v, u));
            }
            if has_need(keys_of_req(xf), nd) && !has_need(kc, nd) {
                let u = choose|u: Need| #[trigger] uses_need_forms(p.forms, u) && need_matches(nd, u);
                assert(uses_need(v, u));
            }
        },
        _ => {},
    }
}

proof fn lemma_keys_into_seq_only(vs: Seq<ValueV>, x: InterpolOrLitV, nd: Need)
    ensures
        has_need(keys_of_req(keys_into_seq(vs, x)), nd) ==> has_need(keys_of_req(x), nd) || exists|u: Need|
            #[trigger] uses_need_seq(vs, u) && need_matches(nd, u),
    decreases vs, 1nat,
{
    if vs.len() > 0 {
        let xi = keys_into_seq(vs.drop_last(), x);
        lemma_keys_into_seq_only(vs.drop_last(), x, nd);
        lemma_keys_into_only(vs.last(), xi, nd);
        if has_need(keys_of_req(keys_into_seq(vs, x)), nd) && !has_need(keys_of_req(xi), nd) {
            let u = choose|u: Need| #[trigger] uses_need(vs.last(), u) && need_matches(nd, u);
            assert(uses_need_seq(vs, u));
        }
        if has_need(keys_of_req(xi), nd) && !has_need(keys_of_req(x), nd) {
            let u = choose|u: Need| #[trigger] uses_need_seq(vs.drop_last(), u) && need_matches(nd, u);
            assert(uses_need_seq(vs, u));
        }
    }
}

proof fn lemma_keys_into_forms_only(fs: Seq<(PluralForm, ValueV)>, x: InterpolOrLitV, nd: Need)
    ensures
        has_need(keys_of_req(keys_into_forms(fs, x)), nd) ==> has_need(keys_of_req(x), nd) || exists|u: Need|
            #[trigger] uses_need_forms(fs, u) && need_matches(nd, u),
    decreases fs, 1nat,
{
    if fs.len() > 0 {
        let xi = keys_into_forms(fs.drop_last(), x);
        lemma_keys_into_forms_only(fs.drop_last(), x, nd);
        lemma_keys_into_only(fs.last().1, xi, nd);
        if has_need(keys_of_req(keys_into_forms(fs, x)), nd) && !has_need(keys_of_req(xi), nd) {
            let u = choose|u: Need| #[trigger] uses_need(fs.last().1, u) && need_matches(nd, u);
            assert(uses_need_forms(fs, u));
        }
        if has_need(keys_of_req(xi), nd) && !has_need(keys_of_req(x), nd) {
            let u = choose|u: Need| #[trigger] uses_need_forms(fs.drop_last(), u) && need_matches(nd, u);
            assert(uses_need_forms(fs, u));
        }
    }
}

/// The interpolation keys a translation key requires are only those its
/// value sets: each need held (a variable with a bound, a count variable,
/// a component with or without inner value) answers a need used somewhere
/// in the value.
pub proof fn law_keys_only_used_needs(v: ValueV, nd: Need)
    ensures
        has_need(keys_of_req(spec_get_keys(v)), nd) ==> exists|u: Need| #[trigger] uses_need(v, u) && need_matches(nd, u),
{
    let l = InterpolOrLitV::Lit(LiteralType::String);
    assert(keys_of_req(l) == no_keys());
    if !(v is Literal) {
        assert(spec_get_keys(v) == keys_into(v, l, false));
        lemma_keys_into_only(v, l, nd);
    }
}

proof fn lemma_set_view_slot(v: Seq<(Key, ())>, k: Seq<char>, i: int, found: bool)
    requires
        is_slot(v.map_values(|p: (Key, ())| p.0@), k, i, found),
    ensures
        is_slot(keys_of(set_view(v)), k, i, found),
{
    assert(v.map_values(|p: (Key, ())| p.0@) =~= keys_of(set_view(v)));
}

proof fn lemma_var_view_slot(v: Seq<(Key, VarInfos)>, k: Seq<char>, i: int, found: bool)
    requires
        is_slot(v.map_values(|p: (Key, VarInfos)| p.0@), k, i, found),
    ensures
        is_slot(keys_of(var_table_view(v)), k, i, found),
{
    assert(v.map_values(|p: (Key, VarInfos)| p.0@) =~= keys_of(var_table_view(v)));
}

fn set_insert(s: &mut Vec<(Key, ())>, key: &Key)
    ensures
        set_view(final(s)@) == map_put(set_view(old(s)@), key@, ()),
{
    let (i, found) = find_slot(s, key.name.as_str());
    proof {
        lemma_set_view_slot(s@, key@, i as int, found);
        lemma_slot(set_view(s@), key@, (), i as int, found);
    }
    let ghost m = set_view(s@);
    if found {
        assert(m.update(i as int, (key@, ())) =~= m);
    } else {
        s.insert(i, (key.copy(), ()));
        assert(set_view(s@) =~= m.insert(i as int, (key@, ())));
    }
}

impl LocaleKeys {
    /// No keys at all.
    pub fn new() -> (res: LocaleKeys)
        ensures
            res@ == no_keys(),
    {
        let res = LocaleKeys { components: Vec::new(), components_self_closed: Vec::new(), variables: Vec::new() };
        assert(res@.comps =~= Seq::<(Seq<char>, ())>::empty());
        assert(res@.closed =~= Seq::<(Seq<char>, ())>::empty());
        assert(res@.vars =~= Seq::<(Seq<char>, VarInfosV)>::empty());
        res
    }

    /// Records that variable `key` is used with bound `b`.
    pub fn push_var(&mut self, key: &Key, b: VarBound)
        ensures
            final(self)@ == lk_var(old(self)@, key@, b),
    {
        let (i, found) = find_slot(&self.variables, key.name.as_str());
        proof {
            lemma_var_view_slot(self.variables@, key@, i as int, found);
        }
        let ghost m = var_table_view(self.variables@);
        if found {
            let ghost old_info = self.variables@[i as int].1@;
            let (k, mut info) = self.variables.remove(i);
            bounds_insert(&mut info.bounds, b);
            let ghost entry = (key@, VarInfosV { bounds: bounds_put(old_info.bounds, b), plural: old_info.plural });
            self.variables.insert(i, (k, info));
            proof {
                lemma_slot(m, key@, entry.1, i as int, true);
                assert(var_table_view(self.variables@) =~= m.update(i as int, entry));
            }
        } else {
            let mut info = VarInfos { bounds: Vec::new(), plural: false };
            bounds_insert(&mut info.bounds, b);
            let ghost entry = (key@, VarInfosV { bounds: bounds_put(Seq::<VarBound>::empty(), b), plural: false });
            self.variables.insert(i, (key.copy(), info));
            proof {
                lemma_slot(m, key@, entry.1, i as int, false);
                assert(var_table_view(self.variables@) =~= m.insert(i as int, entry));
            }
        }
    }

    /// Records that variable `key` counts a plural.
    pub fn push_count(&mut self, key: &Key)
        ensures
            final(self)@ == lk_count(old(self)@, key@),
    {
        let (i, found) = find_slot(&self.variables, key.name.as_str());
        proof {
            lemma_var_view_slot(self.variables@, key@, i as int, found);
        }
        let ghost m = var_table_view(self.variables@);
        if found {
            let ghost old_info = self.variables@[i as int].1@;
            let (k, mut info) = self.variables.remove(i);
            info.plural = true;
            let ghost entry = (key@, VarInfosV { bounds: old_info.bounds, plural: true });
            self.variables.insert(i, (k, info));
            proof {
                lemma_slot(m, key@, entry.1, i as int, true);
                assert(var_table_view(self.variables@) =~= m.update(i as int, entry));
            }
        } else {
            let info = VarInfos { bounds: Vec::new(), plural: true };
            let ghost entry = (key@, VarInfosV { bounds: Seq::<VarBound>::empty(), plural: true });
            self.variables.insert(i, (key.copy(), info));
            proof {
                lemma_slot(m, key@, entry.1, i as int, false);
                assert(var_table_view(self.variables@) =~= m.insert(i as int, entry));
            }
        }
    }

    /// Records component `key`, used with an inner value.
    pub fn push_comp(&mut self, key: &Key)
        ensures
            final(self)@ == lk_comp(old(self)@, key@),
    {
        set_insert(&mut self.components, key);
    }

    /// Records component `key`, used self-closed.
    pub fn push_comp_self_closed(&mut self, key: &Key)
        ensures
            final(self)@ == lk_closed(old(self)@, key@),
    {
        set_insert(&mut self.components_self_closed, key);
    }
}

impl InterpolOrLit {
    /// The interpolation keys, a literal requirement becoming an empty set
    /// of keys.
    pub fn into_keys(self) -> (res: LocaleKeys)
        ensures
            res@ == keys_of_req(self@),
    {
        match self {
            InterpolOrLit::Interpol(k) => k,
            InterpolOrLit::Lit(_) => LocaleKeys::new(),
        }
    }

    /// Whether the requirement is interpolation keys.
    pub fn is_interpol(&self) -> (res: bool)
        ensures
            res == (self@ is Interpol),
    {
        match self {
            InterpolOrLit::Interpol(_) => true,
            InterpolOrLit::Lit(_) => false,
        }
    }
}

fn dummies_into(ds: &Vec<Dummy>, keys: &mut LocaleKeys)
    ensures
        final(keys)@ == lk_dummies(old(keys)@, ds@.map_values(|d: Dummy| d@)),
{
    let ghost dv = ds@.map_values(|d: Dummy| d@);
    let ghost k0 = keys@;
    let mut i: usize = 0;
    assert(dv.take(0) =~= Seq::<DummyV>::empty());
    while i < ds.len()
        invariant
            dv == ds@.map_values(|d: Dummy| d@),
            i <= ds@.len(),
            keys@ == lk_dummies(k0, dv.take(i as int)),
        decreases ds@.len() - i,
    {
        proof {
            assert(dv.take(i + 1).drop_last() =~= dv.take(i as int));
            assert(dv.take(i + 1).last() == ds@[i as int]@);
        }
        match &ds[i] {
            Dummy::Variable(key) => keys.push_var(key, VarBound::Dummy),
            Dummy::Component(key) => keys.push_comp(key),
        }
        i = i + 1;
    }
    assert(dv.take(i as int) =~= dv);
}

/// Adds the variables used as attribute values (see `attr_vars_into`).
fn attr_vars_exec(attrs: &Vec<Attribute>, k: &mut LocaleKeys)
    ensures
        final(k)@ == attr_vars_into(attrs_view(attrs@), old(k)@),
{
    let ghost av = attrs_view(attrs@);
    let ghost k0 = k@;
    let mut i: usize = 0;
    assert(av.take(0) =~= Seq::<AttributeV>::empty());
    while i < attrs.len()
        invariant
            i <= attrs@.len(),
            av == attrs_view(attrs@),
            av.len() == attrs@.len(),
            k@ == attr_vars_into(av.take(i as int), k0),
        decreases attrs@.len() - i,
    {
        proof {
            assert(av.take(i + 1).drop_last() =~= av.take(i as int));
            assert(av.take(i + 1).last() == av[i as int]);
            assert(av[i as int] == attrs@[i as int]@);
        }
        match &attrs[i].value {
            Some(AttributeValue::Variable(name)) => {
                k.push_var(name, VarBound::AttributeValue);
            },
            _ => {},
        }
        i = i + 1;
    }
    assert(av.take(i as int) =~= av);
}

/// `x` with the needs of `v` added (see `keys_into`).
fn add_keys(v: &ParsedValue, x: InterpolOrLit, top: bool) -> (res: InterpolOrLit)
    ensures
        res@ == keys_into(v@, x@, top),
    decreases v, 1nat,
{
    match v {
        ParsedValue::Literal(l) => if top {
            InterpolOrLit::Lit(l.get_type())
        } else {
            x
        },
        ParsedValue::Variable { key, formatter } => {
            let mut k = x.into_keys();
            k.push_var(key, *formatter);
            InterpolOrLit::Interpol(k)
        },
        ParsedValue::Component { key, inner, attributes } => {
            let mut ka = x.into_keys();
            attr_vars_exec(attributes, &mut ka);
            let x1 = InterpolOrLit::Interpol(ka);
            match inner {
                Some(b) => {
                    proof {
                        assert(decreases_to!(*v => (*v)->Component_inner));
                        assert(decreases_to!((*v)->Component_inner => (*v)->Component_inner->Some_0));
                    }
                    let mut k = add_keys(b, x1, false).into_keys();
                    k.push_comp(key);
                    InterpolOrLit::Interpol(k)
                },
                None => {
                    let mut k = x1.into_keys();
                    k.push_comp_self_closed(key);
                    InterpolOrLit::Interpol(k)
                },
            }
        },
        ParsedValue::Dummy(ds) => {
            let mut k = x.into_keys();
            dummies_into(ds, &mut k);
            InterpolOrLit::Interpol(k)
        },
        ParsedValue::Bloc(vs) => {
            let ghost vv = view_values(vs@);
            let ghost x0 = x@;
            proof {
                lemma_view_values_len(vs@);
            }
            let mut acc = x;
            let mut i: usize = 0;
            assert(vv.take(0) =~= Seq::<ValueV>::empty());
            while i < vs.len()
                invariant
                    *v == ParsedValue::Bloc(*vs),
                    vv == view_values(vs@),
                    vv.len() == vs@.len(),
                    forall|j: int| 0 <= j < vs@.len() ==> #[trigger] vv[j] == view_value(vs@[j]),
                    i <= vs@.len(),
                    acc@ == keys_into_seq(vv.take(i as int), x0),
                decreases vs@.len() - i,
            {
                proof {
                    assert(decreases_to!(*v => (*v)->Bloc_0));
                    assert(decreases_to!((*v)->Bloc_0 => (*v)->Bloc_0@));
                    assert(decreases_to!((*v)->Bloc_0@ => (*v)->Bloc_0@[i as int]));
                    assert(vv.take(i + 1).drop_last() =~= vv.take(i as int));
                    assert(vv.take(i + 1).last() == vv[i as int]);
                }
                acc = add_keys(&vs[i], acc, false);
                i = i + 1;
            }
            assert(vv.take(i as int) =~= vv);
            acc
        },
        ParsedValue::ForeignKey(ForeignKey::Resolved(b)) => {
            proof {
                assert(decreases_to!(*v => (*v)->ForeignKey_0));
                assert(decreases_to!((*v)->ForeignKey_0 => (*v)->ForeignKey_0->Resolved_0));
            }
            add_keys(b, x, false)
        },
        ParsedValue::Plurals(p) => {
            let mut k = x.into_keys();
            k.push_count(&p.count_key);
            let ghost fv = view_forms(p.forms@);
            let ghost x0 = InterpolOrLit::Interpol(k)@;
            proof {
                lemma_view_forms_len(p.forms@);
            }
            let mut acc = InterpolOrLit::Interpol(k);
            let mut i: usize = 0;
            assert(fv.take(0) =~= Seq::<(PluralForm, ValueV)>::empty());
            while i < p.forms.len()
                invariant
                    *v == ParsedValue::Plurals(*p),
                    fv == view_forms(p.forms@),
                    fv.len() == p.forms@.len(),
                    forall|j: int|
                        0 <= j < p.forms@.len() ==> #[trigger] fv[j] == (p.forms@[j].0, view_value(p.forms@[j].1)),
                    i <= p.forms@.len(),
                    acc@ == keys_into_forms(fv.take(i as int), x0),
                decreases p.forms@.len() - i,
            {
                proof {
                    assert(decreases_to!(*v => (*v)->Plurals_0));
                    assert(decreases_to!(*p => p.forms));
                    assert(decreases_to!(p.forms => p.forms@));
                    assert(decreases_to!(p.forms@ => p.forms@[i as int]));
                    assert(decreases_to!(p.forms@[i as int] => p.forms@[i as int].1));
                    assert(fv.take(i + 1).drop_last() =~= fv.take(i as int));
                    assert(fv.take(i + 1).last() == fv[i as int]);
                }
                acc = add_keys(&p.forms[i].1, acc, false);
                i = i + 1;
            }
            assert(fv.take(i as int) =~= fv);
            proof {
                assert(decreases_to!(*v => (*v)->Plurals_0));
                assert(decreases_to!((*v)->Plurals_0 => (*v)->Plurals_0.other));
            }
            add_keys(&p.other, acc, false)
        },
        _ => x,
    }
}

impl ParsedValue {
    /// Adds the needs of the value to `keys` (see `keys_into`).
    pub fn get_keys_inner(&self, keys: &mut InterpolOrLit, is_top: bool)
        ensures
            final(keys)@ == keys_into(self@, old(keys)@, is_top),
    {
        let mut x = InterpolOrLit::Lit(LiteralType::String);
        std::mem::swap(keys, &mut x);
        *keys = add_keys(self, x, is_top);
    }

    /// The requirement the value sets on its own (see `spec_get_keys`).
    pub fn get_keys(&self) -> (res: InterpolOrLit)
        ensures
            res@ == spec_get_keys(self@),
    {
        add_keys(self, InterpolOrLit::Lit(LiteralType::String), true)
    }
}

/// The keys of one translation key across the locales: the requirement,
/// and the locales that take this key from another locale; or, for a key
/// that holds nested keys, the keys of the nested level (`subkeys`, the
/// requirement and fallbacks then being unused).
#[derive(Debug)]
pub struct LocaleValue {
    pub value: InterpolOrLit,
    pub defaults: DefaultedLocales,
    pub subkeys: Option<Vec<(Key, LocaleValue)>>,
}

pub struct LocaleValueV {
    pub value: InterpolOrLitV,
    pub default_locale: Seq<char>,
    pub defaults: Seq<(Seq<char>, Seq<char>)>,
    pub subkeys: Option<Seq<(Seq<char>, LocaleValueV)>>,
}

/// The view of a key's requirement, nested levels included.
pub open spec fn lv_view(l: LocaleValue) -> LocaleValueV
    decreases l,
{
    LocaleValueV {
        value: l.value@,
        default_locale: l.defaults.default_locale@,
        defaults: pairs_of_keys(l.defaults.mapping@),
        subkeys: match l.subkeys {
            Some(v) => Some(lv_entries(v@)),
            None => None,
        },
    }
}

/// The views of the keys of a nested level.
pub open spec fn lv_entries(s: Seq<(Key, LocaleValue)>) -> Seq<(Seq<char>, LocaleValueV)>
    decreases s,
{
    if s.len() == 0 {
        Seq::empty()
    } else {
        lv_entries(s.drop_last()).push((s.last().0@, lv_view(s.last().1)))
    }
}

impl View for LocaleValue {
    type V = LocaleValueV;

    open spec fn view(&self) -> LocaleValueV {
        lv_view(*self)
    }
}

/// What merging a locale's value `v` (read in locale `top`, falling back
/// to `fb`) does to the requirement of a key without nested keys, and the
/// value it leaves, with the string table after it.
pub open spec fn spec_merge_plain(lv: LocaleValueV, v: ValueV, top: Seq<char>, fb: Seq<char>, t: Seq<Seq<char>>) -> (
    LocaleValueV,
    ValueV,
    Seq<Seq<char>>,
) {
    let r = spec_reduce(v);
    let iv = index_value(r, t);
    if r is Default {
        (LocaleValueV { defaults: map_put(lv.defaults, top, fb), ..lv }, iv.0, iv.1)
    } else {
        (LocaleValueV { value: merge_req(iv.0, lv.value), ..lv }, iv.0, iv.1)
    }
}

/// The locale a fallback names.
pub open spec fn fallback_key(d: DefaultTo) -> Key {
    match d {
        DefaultTo::Explicit(k) => k,
        DefaultTo::Implicit(k) => k,
    }
}

/// The requirement after another locale's value (simplified, not an
/// explicit default) is merged in: a literal of the required kind changes
/// nothing, a literal of another kind turns the requirement into empty
/// interpolation keys; any other value adds its needs.
pub open spec fn merge_req(v: ValueV, x: InterpolOrLitV) -> InterpolOrLitV {
    match v {
        ValueV::Literal(l) => match x {
            InterpolOrLitV::Interpol(_) => x,
            InterpolOrLitV::Lit(t) => if literal_type(l) == t {
                x
            } else {
                InterpolOrLitV::Interpol(no_keys())
            },
        },
        _ => keys_into(v, x, false),
    }
}

impl ParsedValue {
    /// The keys a default-locale value sets (see `spec_get_keys`), its
    /// strings placed in the table; an explicit default is an error there.
    pub fn make_locale_value(&mut self, default_locale: &Key, key_path: &KeyPath, strings: &mut StringIndexer) -> (res:
        Result<LocaleValue, Error>)
        requires
            old(strings).wf(),
        ensures
            final(strings).wf(),
            old(self)@ is Default ==> final(self)@ == old(self)@ && final(strings)@ == old(strings)@ && res is Err
                && res->Err_0@ == crate::error::ErrV::ExplicitDefaultInDefault(key_path@),
            !(old(self)@ is Default) ==> (final(self)@, final(strings)@) == index_value(old(self)@, old(strings)@)
                && res is Ok && res->Ok_0.value@ == spec_get_keys(final(self)@) && res->Ok_0.defaults.default_locale@
                == default_locale@ && res->Ok_0.defaults.mapping@.len() == 0 && res->Ok_0.subkeys is None,
    {
        let is_default = match self {
            ParsedValue::Default => true,
            _ => false,
        };
        if is_default {
            return Err(Error::ExplicitDefaultInDefault(key_path.copy()));
        }
        self.index_strings(strings);
        let value = self.get_keys();
        Ok(LocaleValue { value, defaults: DefaultedLocales::new(default_locale.copy()), subkeys: None })
    }

    /// Merges another locale's value of a key without nested keys into the
    /// key's requirement: the value is simplified and its strings placed in
    /// the table; an explicit default records the locale's fallback,
    /// anything else updates the requirement (see `merge_req`).
    pub(crate) fn merge_plain(
        &mut self,
        keys: &mut LocaleValue,
        top_locale: Key,
        default_to: &DefaultTo,
        strings: &mut StringIndexer,
    )
        requires
            old(strings).wf(),
            fk_resolved(old(self)@),
        ensures
            final(strings).wf(),
            (final(self)@, final(strings)@) == index_value(spec_reduce(old(self)@), old(strings)@),
            spec_reduce(old(self)@) is Default ==> final(keys).value@ == old(keys).value@
                && final(keys).defaults.default_locale == old(keys).defaults.default_locale && pairs_of_keys(
                final(keys).defaults.mapping@,
            ) == map_put(pairs_of_keys(old(keys).defaults.mapping@), top_locale@, fallback_key(*default_to)@),
            !(spec_reduce(old(self)@) is Default) ==> final(keys).value@ == merge_req(final(self)@, old(keys).value@)
                && final(keys).defaults == old(keys).defaults,
            final(keys).subkeys == old(keys).subkeys,
    {
        self.reduce();
        let is_default = match self {
            ParsedValue::Default => true,
            _ => false,
        };
        if is_default {
            keys.defaults.push_default(top_locale, default_to.get_key().copy());
            return;
        }
        self.index_strings(strings);
        let lit_type = match &*self {
            ParsedValue::Literal(l) => Some(l.get_type()),
            _ => None,
        };
        match lit_type {
            Some(lt) => {
                let same = match &keys.value {
                    InterpolOrLit::Interpol(_) => true,
                    InterpolOrLit::Lit(t) => lt == *t,
                };
                if !same {
                    keys.value = InterpolOrLit::Interpol(LocaleKeys::new());
                }
            },
            None => {
                self.get_keys_inner(&mut keys.value, false);
            },
        }
    }
}

proof fn lemma_interpol_stays(v: ValueV, x: InterpolOrLitV)
    requires
        x is Interpol,
    ensures
        keys_into(v, x, false) is Interpol,
    decreases v, 1nat,
{
    match v {
        ValueV::Bloc(vs) => lemma_interpol_stays_seq(vs, x),
        ValueV::ForeignKey(FkV::Resolved(b)) => lemma_interpol_stays(*b, x),
        ValueV::Plurals(p) => {
            let x1 = InterpolOrLitV::Interpol(lk_count(keys_of_req(x), p.count_key));
            lemma_interpol_stays_forms(p.forms, x1);
            lemma_interpol_stays(*p.other, keys_into_forms(p.forms, x1));
        },
        _ => {},
    }
}

proof fn lemma_interpol_stays_seq(vs: Seq<ValueV>, x: InterpolOrLitV)
    requires
        x is Interpol,
    ensures
        keys_into_seq(vs, x) is Interpol,
    decreases vs, 1nat,
{
    if vs.len() > 0 {
        lemma_interpol_stays_seq(vs.drop_last(), x);
        assert(decreases_to!(vs => vs[vs.len() - 1]));
        lemma_interpol_stays(vs.last(), keys_into_seq(vs.drop_last(), x));
    }
}

proof fn lemma_interpol_stays_forms(fs: Seq<(PluralForm, ValueV)>, x: InterpolOrLitV)
    requires
        x is Interpol,
    ensures
        keys_into_forms(fs, x) is Interpol,
    decreases fs, 1nat,
{
    if fs.len() > 0 {
        lemma_interpol_stays_forms(fs.drop_last(), x);
        assert(decreases_to!(fs => fs[fs.len() - 1]));
        assert(decreases_to!(fs[fs.len() - 1] => fs[fs.len() - 1].1));
        lemma_interpol_stays(fs.last().1, keys_into_forms(fs.drop_last(), x));
    }
}

/// Once a key needs interpolation keys, merging any other locale's value
/// keeps it so: it never goes back to a plain literal.
pub proof fn law_interpolation_is_kept(v: ValueV, x: InterpolOrLitV)
    requires
        x is Interpol,
    ensures
        merge_req(v, x) is Interpol,
{
    lemma_interpol_stays(v, x);
}

} // verus!
