//! The interpolation keys of a translation (its variables with their bounds,
//! its components) and the naming of the builder that each distinct set of
//! keys gets.

use vstd::prelude::*;
use crate::formatter::Formatter;
use crate::plurals::PluralForm;
use crate::key::{Key, KeyPath, KeyPathV, spec_key_new};
use crate::parse::{str_less, string_less};
use crate::text::{is_ascii_alpha, char_is_ascii_alpha, str_eq, to_owned};
use crate::value::{
    lemma_view_forms_len, Attribute, AttributeV, AttributeValue, AttributeValueV, attrs_view, Dummy, DummyV, FkV, ForeignKey, ParsedValue, ValueV, VarBound, lemma_view_values_len, view_forms,
    view_values, view_value,
};

verus! {

/// The index of a builder; `usize::MAX` before one is assigned.
#[derive(Debug, Clone, Copy, PartialEq, Eq, Structural, PartialOrd, Ord)]
pub struct BuilderId(pub usize);

impl Default for BuilderId {
    fn default() -> (res: BuilderId)
        ensures
            res.0 == usize::MAX,
    {
        BuilderId(usize::MAX)
    }
}

/// What is known of a component: whether it is used self-closed.
#[derive(Debug, Clone, Copy, PartialEq, Eq, Structural, PartialOrd, Ord)]
pub struct CompInfos {
    pub self_closed: bool,
}

/// What is known of a variable: its bounds, each once, in bound order, and
/// whether it counts a plural.
#[derive(Debug, Clone, PartialEq)]
pub struct VarInfos {
    pub bounds: Vec<VarBound>,
    pub plural: bool,
}

/// View of a variable's information.
pub struct VarInfosV {
    pub bounds: Seq<VarBound>,
    pub plural: bool,
}

impl View for VarInfos {
    type V = VarInfosV;

    open spec fn view(&self) -> VarInfosV {
        VarInfosV { bounds: self.bounds@, plural: self.plural }
    }
}

/// The interpolation keys of a value: components and variables, each kept
/// sorted by name, each name once.
#[derive(Debug, Clone, PartialEq)]
pub struct InterpolationKeys {
    pub components: Vec<(Key, CompInfos)>,
    pub vars: Vec<(Key, VarInfos)>,
}

/// View of interpolation keys.
pub struct KeysV {
    pub comps: Seq<(Seq<char>, bool)>,
    pub vars: Seq<(Seq<char>, VarInfosV)>,
}

pub open spec fn comps_view(c: Seq<(Key, CompInfos)>) -> Seq<(Seq<char>, bool)> {
    c.map_values(|p: (Key, CompInfos)| (p.0@, p.1.self_closed))
}

pub open spec fn vars_view(v: Seq<(Key, VarInfos)>) -> Seq<(Seq<char>, VarInfosV)> {
    v.map_values(|p: (Key, VarInfos)| (p.0@, p.1@))
}

impl View for InterpolationKeys {
    type V = KeysV;

    open spec fn view(&self) -> KeysV {
        KeysV { comps: comps_view(self.components@), vars: vars_view(self.vars@) }
    }
}

/// The value stored under `k` in a map kept as entries sorted by key.
pub open spec fn map_get<T>(m: Seq<(Seq<char>, T)>, k: Seq<char>) -> Option<T>
    decreases m.len(),
{
    if m.len() == 0 {
        None
    } else if m[0].0 == k {
        Some(m[0].1)
    } else if str_less(k, m[0].0) {
        None
    } else {
        map_get(m.drop_first(), k)
    }
}

/// Stores `v` under `k` in a map kept as entries sorted by key.
pub open spec fn map_put<T>(m: Seq<(Seq<char>, T)>, k: Seq<char>, v: T) -> Seq<(Seq<char>, T)>
    decreases m.len(),
{
    if m.len() == 0 {
        seq![(k, v)]
    } else if m[0].0 == k {
        seq![(k, v)] + m.drop_first()
    } else if str_less(k, m[0].0) {
        seq![(k, v)] + m
    } else {
        seq![m[0]] + map_put(m.drop_first(), k, v)
    }
}

/// What `map_put` stores under a key, `map_get` finds there.
pub proof fn lemma_map_put_get_same<T>(m: Seq<(Seq<char>, T)>, k: Seq<char>, v: T)
    ensures
        map_get(map_put(m, k, v), k) == Some(v),
    decreases m.len(),
{
    if m.len() > 0 && m[0].0 != k && !str_less(k, m[0].0) {
        lemma_map_put_get_same(m.drop_first(), k, v);
        let r = map_put(m, k, v);
        assert(r[0] == m[0]);
        assert(r.drop_first() =~= map_put(m.drop_first(), k, v));
    }
}

/// No name sorts before itself.
pub proof fn lemma_str_less_irrefl(a: Seq<char>)
    ensures
        !str_less(a, a),
    decreases a.len(),
{
    if a.len() > 0 {
        lemma_str_less_irrefl(a.drop_first());
    }
}

/// Sorting before is transitive.
pub proof fn lemma_str_less_trans(a: Seq<char>, b: Seq<char>, c: Seq<char>)
    requires
        str_less(a, b),
        str_less(b, c),
    ensures
        str_less(a, c),
    decreases a.len(),
{
    if a.len() > 0 && b.len() > 0 && c.len() > 0 {
        if (a[0] as u32) == (b[0] as u32) && (b[0] as u32) == (c[0] as u32) {
            lemma_str_less_trans(a.drop_first(), b.drop_first(), c.drop_first());
        }
    }
}

/// Two different names are ordered one way or the other.
pub proof fn lemma_str_less_total(a: Seq<char>, b: Seq<char>)
    requires
        a != b,
    ensures
        str_less(a, b) || str_less(b, a),
    decreases a.len(),
{
    if a.len() > 0 && b.len() > 0 && (a[0] as u32) == (b[0] as u32) {
        vstd::utf8::char_u32_cast(a[0], a[0] as u32);
        vstd::utf8::char_u32_cast(b[0], b[0] as u32);
        assert(a[0] == b[0]);
        if a.drop_first() == b.drop_first() {
            assert(a =~= seq![a[0]] + a.drop_first());
            assert(b =~= seq![b[0]] + b.drop_first());
        }
        lemma_str_less_total(a.drop_first(), b.drop_first());
    } else if a.len() == 0 && b.len() == 0 {
        assert(a =~= b);
    }
}

/// The entries are in strictly increasing order of names.
pub open spec fn sorted_names<T>(m: Seq<(Seq<char>, T)>) -> bool {
    forall|i: int, j: int| 0 <= i < j < m.len() ==> str_less(#[trigger] m[i].0, #[trigger] m[j].0)
}

/// Each name of `map_put(m, k, v)` is `k` or a name of `m`.
pub proof fn lemma_map_put_names<T>(m: Seq<(Seq<char>, T)>, k: Seq<char>, v: T)
    ensures
        forall|i: int|
            0 <= i < map_put(m, k, v).len() ==> (#[trigger] map_put(m, k, v)[i]).0 == k || exists|j: int|
                0 <= j < m.len() && m[j].0 == map_put(m, k, v)[i].0,
    decreases m.len(),
{
    let r = map_put(m, k, v);
    if m.len() == 0 {
    } else if m[0].0 == k {
        assert forall|i: int| 0 <= i < r.len() implies (#[trigger] r[i]).0 == k || exists|j: int|
            0 <= j < m.len() && m[j].0 == r[i].0 by {
            if i > 0 {
                assert(r[i] == m[i]);
            }
        }
    } else if str_less(k, m[0].0) {
        assert forall|i: int| 0 <= i < r.len() implies (#[trigger] r[i]).0 == k || exists|j: int|
            0 <= j < m.len() && m[j].0 == r[i].0 by {
            if i > 0 {
                assert(r[i] == m[i - 1]);
            }
        }
    } else {
        lemma_map_put_names(m.drop_first(), k, v);
        let t = map_put(m.drop_first(), k, v);
        assert forall|i: int| 0 <= i < r.len() implies (#[trigger] r[i]).0 == k || exists|j: int|
            0 <= j < m.len() && m[j].0 == r[i].0 by {
            if i == 0 {
                assert(r[0] == m[0]);
            } else {
                assert(r[i] == t[i - 1]);
                if t[i - 1].0 != k {
                    let j = choose|j: int| 0 <= j < m.drop_first().len() && m.drop_first()[j].0 == t[i - 1].0;
                    assert(m[j + 1] == m.drop_first()[j]);
                }
            }
        }
    }
}

/// `map_put` keeps the names in increasing order.
pub proof fn lemma_map_put_sorted<T>(m: Seq<(Seq<char>, T)>, k: Seq<char>, v: T)
    requires
        sorted_names(m),
    ensures
        sorted_names(map_put(m, k, v)),
    decreases m.len(),
{
    let r = map_put(m, k, v);
    if m.len() == 0 {
    } else if m[0].0 == k {
        assert forall|i: int, j: int| 0 <= i < j < r.len() implies str_less(#[trigger] r[i].0, #[trigger] r[j].0) by {
            assert(r[j] == m[j]);
            if i > 0 {
                assert(r[i] == m[i]);
            }
        }
    } else if str_less(k, m[0].0) {
        assert forall|i: int, j: int| 0 <= i < j < r.len() implies str_less(#[trigger] r[i].0, #[trigger] r[j].0) by {
            assert(r[j] == m[j - 1]);
            if i > 0 {
                assert(r[i] == m[i - 1]);
            } else if j - 1 > 0 {
                lemma_str_less_trans(k, m[0].0, m[j - 1].0);
            }
        }
    } else {
        lemma_str_less_total(k, m[0].0);
        let t = map_put(m.drop_first(), k, v);
        assert(sorted_names(m.drop_first())) by {
            assert forall|i: int, j: int| 0 <= i < j < m.drop_first().len() implies str_less(
                #[trigger] m.drop_first()[i].0,
                #[trigger] m.drop_first()[j].0,
            ) by {
                assert(m.drop_first()[i] == m[i + 1] && m.drop_first()[j] == m[j + 1]);
            }
        }
        lemma_map_put_sorted(m.drop_first(), k, v);
        lemma_map_put_names(m.drop_first(), k, v);
        assert forall|i: int, j: int| 0 <= i < j < r.len() implies str_less(#[trigger] r[i].0, #[trigger] r[j].0) by {
            assert(r[j] == t[j - 1]);
            if i > 0 {
                assert(r[i] == t[i - 1]);
            } else {
                assert(r[0] == m[0]);
                if t[j - 1].0 != k {
                    let jj = choose|jj: int| 0 <= jj < m.drop_first().len() && m.drop_first()[jj].0 == t[j - 1].0;
                    assert(m[jj + 1] == m.drop_first()[jj]);
                }
            }
        }
    }
}

/// Names in increasing order are distinct.
pub proof fn lemma_sorted_distinct<T>(m: Seq<(Seq<char>, T)>)
    requires
        sorted_names(m),
    ensures
        forall|i: int, j: int| 0 <= i < j < m.len() ==> m[i].0 != m[j].0,
{
    assert forall|i: int, j: int| 0 <= i < j < m.len() implies m[i].0 != m[j].0 by {
        assert(str_less(m[i].0, m[j].0));
        if m[i].0 == m[j].0 {
            lemma_str_less_irrefl(m[i].0);
        }
    }
}

/// A key other than the one stored reads the same after `map_put`.
#[verifier::spinoff_prover]
pub proof fn lemma_map_put_get_other<T>(m: Seq<(Seq<char>, T)>, k: Seq<char>, v: T, k2: Seq<char>)
    requires
        k2 != k,
    ensures
        map_get(map_put(m, k, v), k2) == map_get(m, k2),
    decreases m.len(),
{
    let r = map_put(m, k, v);
    if m.len() == 0 {
        assert(r[0] == (k, v));
        assert(r.len() == 1);
        assert(r.drop_first() =~= Seq::<(Seq<char>, T)>::empty());
        assert(map_get(r.drop_first(), k2) is None);
        assert(map_get(m, k2) is None);
        assert(map_get(r, k2) == map_get(m, k2));
    } else if m[0].0 == k {
        assert(r[0] == (k, v));
        assert(r.drop_first() =~= m.drop_first());
        assert(map_get(r, k2) == map_get(m, k2));
    } else if str_less(k, m[0].0) {
        assert(r[0] == (k, v));
        assert(r.drop_first() =~= m);
        if str_less(k2, k) {
            lemma_str_less_trans(k2, k, m[0].0);
            lemma_str_less_irrefl(k2);
            assert(map_get(r, k2) == map_get(m, k2));
        } else {
            assert(map_get(r, k2) == map_get(m, k2));
        }
    } else {
        lemma_map_put_get_other(m.drop_first(), k, v, k2);
        assert(r[0] == m[0]);
        assert(r.drop_first() =~= map_put(m.drop_first(), k, v));
        assert(map_get(r, k2) == map_get(m, k2));
    }
}

/// What `map_get` finds is stored at some position under that key.
pub proof fn lemma_map_get_at<T>(m: Seq<(Seq<char>, T)>, k: Seq<char>)
    ensures
        map_get(m, k) matches Some(v) ==> exists|i: int| 0 <= i < m.len() && m[i].0 == k && m[i].1 == v,
    decreases m.len(),
{
    if m.len() > 0 && m[0].0 != k && !str_less(k, m[0].0) {
        lemma_map_get_at(m.drop_first(), k);
        if map_get(m, k) is Some {
            let i = choose|i: int|
                0 <= i < m.drop_first().len() && m.drop_first()[i].0 == k && m.drop_first()[i].1 == map_get(
                    m,
                    k,
                )->0;
            assert(m[i + 1] == m.drop_first()[i]);
        }
    }
}

/// `i` is where the scan of `map_get`/`map_put` for `k` stops: the entries
/// before it are neither `k` nor after it, and the entry at `i` is `k` when
/// `found`, or after `k` (or absent) when not.
pub open spec fn is_slot(keys: Seq<Seq<char>>, k: Seq<char>, i: int, found: bool) -> bool {
    &&& 0 <= i <= keys.len()
    &&& forall|j: int| 0 <= j < i ==> keys[j] != k && !str_less(k, #[trigger] keys[j])
    &&& found ==> i < keys.len() && keys[i] == k
    &&& !found ==> (i == keys.len() || (keys[i] != k && str_less(k, keys[i])))
}

pub open spec fn keys_of<T>(m: Seq<(Seq<char>, T)>) -> Seq<Seq<char>> {
    m.map_values(|p: (Seq<char>, T)| p.0)
}

/// At a slot, `map_get` and `map_put` read and write that entry.
pub proof fn lemma_slot<T>(m: Seq<(Seq<char>, T)>, k: Seq<char>, v: T, i: int, found: bool)
    requires
        is_slot(keys_of(m), k, i, found),
    ensures
        map_get(m, k) == (if found {
            Some(m[i].1)
        } else {
            None
        }),
        map_put(m, k, v) == (if found {
            m.update(i, (k, v))
        } else {
            m.insert(i, (k, v))
        }),
    decreases i,
{
    if i > 0 {
        assert(keys_of(m)[0] == m[0].0);
        let t = m.drop_first();
        assert forall|j: int| 0 <= j < i - 1 implies keys_of(t)[j] != k && !str_less(
            k,
            #[trigger] keys_of(t)[j],
        ) by {
            assert(keys_of(t)[j] == keys_of(m)[j + 1]);
        }
        if found {
            assert(keys_of(t)[i - 1] == keys_of(m)[i]);
        } else if i < m.len() {
            assert(keys_of(t)[i - 1] == keys_of(m)[i]);
        }
        lemma_slot(t, k, v, i - 1, found);
        if found {
            assert(seq![m[0]] + t.update(i - 1, (k, v)) =~= m.update(i, (k, v)));
        } else {
            assert(seq![m[0]] + t.insert(i - 1, (k, v)) =~= m.insert(i, (k, v)));
        }
    } else {
        if found {
            assert(keys_of(m)[0] == m[0].0);
            assert(seq![(k, v)] + m.drop_first() =~= m.update(0, (k, v)));
        } else if m.len() > 0 {
            assert(keys_of(m)[0] == m[0].0);
            assert(seq![(k, v)] + m =~= m.insert(0, (k, v)));
        } else {
            assert(seq![(k, v)] =~= m.insert(0, (k, v)));
        }
    }
}

/// Finds the slot of `k` among the keys of `m`.
pub(crate) fn find_slot<T>(m: &Vec<(Key, T)>, k: &str) -> (res: (usize, bool))
    ensures
        is_slot(m@.map_values(|p: (Key, T)| p.0@), k@, res.0 as int, res.1),
{
    let ghost ks = m@.map_values(|p: (Key, T)| p.0@);
    let mut i: usize = 0;
    while i < m.len()
        invariant
            ks == m@.map_values(|p: (Key, T)| p.0@),
            i <= m@.len(),
            forall|j: int| 0 <= j < i ==> ks[j] != k@ && !str_less(k@, #[trigger] ks[j]),
        decreases m@.len() - i,
    {
        assert(ks[i as int] == m@[i as int].0@);
        if str_eq(m[i].0.name.as_str(), k) {
            return (i, true);
        }
        if string_less(k, m[i].0.name.as_str()) {
            return (i, false);
        }
        i = i + 1;
    }
    (i, false)
}

/// The name of a formatter family, as builders spell it.
pub open spec fn formatter_name(f: Formatter) -> Seq<char> {
    match f {
        Formatter::Unformatted => ""@,
        Formatter::Number(_) => "number"@,
        Formatter::Currency(_, _) => "currency"@,
        Formatter::Date(_, _, _) => "date"@,
        Formatter::Time(_, _, _) => "time"@,
        Formatter::DateTime(_, _, _, _) => "datetime"@,
        Formatter::List(_, _) => "list"@,
    }
}

fn formatter_name_str(f: Formatter) -> (res: &'static str)
    ensures
        res@ == formatter_name(f),
{
    match f {
        Formatter::Unformatted => "",
        Formatter::Number(_) => "number",
        Formatter::Currency(_, _) => "currency",
        Formatter::Date(_, _, _) => "date",
        Formatter::Time(_, _, _) => "time",
        Formatter::DateTime(_, _, _, _) => "datetime",
        Formatter::List(_, _) => "list",
    }
}

/// The order of bounds: `Dummy`, then no formatter, then formatters by
/// name, then attribute values.
pub open spec fn bound_rank(b: VarBound) -> int {
    match b {
        VarBound::Dummy => 0,
        VarBound::Unformatted => 1,
        VarBound::Formatted(_) => 2,
        VarBound::AttributeValue => 3,
    }
}

pub open spec fn bound_name(b: VarBound) -> Seq<char> {
    match b {
        VarBound::Formatted(f) => formatter_name(f),
        _ => Seq::empty(),
    }
}

/// Two bounds count as the same when they have the same rank and name
/// (formatters of one family with other arguments are the same bound).
pub open spec fn same_bound(a: VarBound, b: VarBound) -> bool {
    bound_rank(a) == bound_rank(b) && bound_name(a) == bound_name(b)
}

pub open spec fn bound_before(a: VarBound, b: VarBound) -> bool {
    bound_rank(a) < bound_rank(b) || (bound_rank(a) == bound_rank(b) && str_less(
        bound_name(a),
        bound_name(b),
    ))
}

/// Adds a bound to a set kept in bound order; a bound already there (the
/// same bound) stays as it is.
pub open spec fn bounds_put(s: Seq<VarBound>, b: VarBound) -> Seq<VarBound>
    decreases s.len(),
{
    if s.len() == 0 {
        seq![b]
    } else if same_bound(s[0], b) {
        s
    } else if bound_before(b, s[0]) {
        seq![b] + s
    } else {
        seq![s[0]] + bounds_put(s.drop_first(), b)
    }
}

fn bound_rank_exec(b: VarBound) -> (res: u8)
    ensures
        res as int == bound_rank(b),
{
    match b {
        VarBound::Dummy => 0,
        VarBound::Unformatted => 1,
        VarBound::Formatted(_) => 2,
        VarBound::AttributeValue => 3,
    }
}

fn bound_name_exec(b: VarBound) -> (res: &'static str)
    ensures
        res@ == bound_name(b),
{
    proof {
        reveal_strlit("");
    }
    match b {
        VarBound::Formatted(f) => formatter_name_str(f),
        _ => "",
    }
}

/// Adds `b` to the ordered set of bounds `v`.
pub(crate) fn bounds_insert(v: &mut Vec<VarBound>, b: VarBound)
    ensures
        final(v)@ == bounds_put(old(v)@, b),
{
    let ghost s0 = v@;
    assert(s0.skip(0) =~= s0);
    assert(s0.take(0) + bounds_put(s0.skip(0), b) =~= bounds_put(s0, b));
    let n = v.len();
    let rb = bound_rank_exec(b);
    let nb = bound_name_exec(b);
    let mut i: usize = 0;
    while i < n
        invariant
            n == v@.len(),
            i <= n,
            v@ == s0,
            s0 == old(v)@,
            rb as int == bound_rank(b),
            nb@ == bound_name(b),
            bounds_put(s0, b) == s0.take(i as int) + bounds_put(s0.skip(i as int), b),
        decreases n - i,
    {
        let c = v[i];
        assert(s0.skip(i as int)[0] == c);
        assert(s0.skip(i as int).drop_first() =~= s0.skip(i + 1));
        let rc = bound_rank_exec(c);
        let nc = bound_name_exec(c);
        if rc == rb && str_eq(nc, nb) {
            assert(s0.take(i as int) + s0.skip(i as int) =~= s0);
            return;
        }
        if rb < rc || (rb == rc && string_less(nb, nc)) {
            v.insert(i, b);
            assert(v@ =~= s0.take(i as int) + (seq![b] + s0.skip(i as int)));
            return;
        }
        assert(s0.take(i as int) + (seq![c] + bounds_put(s0.skip(i + 1), b)) =~= s0.take(i + 1)
            + bounds_put(s0.skip(i + 1), b));
        i = i + 1;
    }
    v.push(b);
    assert(s0.skip(n as int) =~= Seq::<VarBound>::empty());
    assert(v@ =~= s0.take(n as int) + seq![b]);
}

/// The information of an unseen variable.
pub open spec fn empty_var() -> VarInfosV {
    VarInfosV { bounds: Seq::empty(), plural: false }
}

/// `k` after recording that variable `key` is used with bound `b`.
pub open spec fn add_var_bound(k: KeysV, key: Seq<char>, b: VarBound) -> KeysV {
    let info = match map_get(k.vars, key) {
        Some(i) => i,
        None => empty_var(),
    };
    KeysV {
        comps: k.comps,
        vars: map_put(k.vars, key, VarInfosV { bounds: bounds_put(info.bounds, b), plural: info.plural }),
    }
}

/// `k` after recording that variable `key` counts a plural.
pub open spec fn mark_plural(k: KeysV, key: Seq<char>) -> KeysV {
    let info = match map_get(k.vars, key) {
        Some(i) => i,
        None => empty_var(),
    };
    KeysV { comps: k.comps, vars: map_put(k.vars, key, VarInfosV { bounds: info.bounds, plural: true }) }
}

/// `k` after recording component `key`, self-closed or not; `None` when
/// the component is already known with the other shape, which the
/// extraction does not accept.
pub open spec fn add_comp(k: KeysV, key: Seq<char>, self_closed: bool) -> Option<KeysV> {
    match map_get(k.comps, key) {
        Some(sc) => if sc == self_closed {
            Some(k)
        } else {
            None
        },
        None => Some(KeysV { comps: map_put(k.comps, key, self_closed), vars: k.vars }),
    }
}

proof fn lemma_vars_view_slot(v: Seq<(Key, VarInfos)>, k: Seq<char>, i: int, found: bool)
    requires
        is_slot(v.map_values(|p: (Key, VarInfos)| p.0@), k, i, found),
    ensures
        is_slot(keys_of(vars_view(v)), k, i, found),
{
    assert(v.map_values(|p: (Key, VarInfos)| p.0@) =~= keys_of(vars_view(v)));
}

proof fn lemma_comps_view_slot(v: Seq<(Key, CompInfos)>, k: Seq<char>, i: int, found: bool)
    requires
        is_slot(v.map_values(|p: (Key, CompInfos)| p.0@), k, i, found),
    ensures
        is_slot(keys_of(comps_view(v)), k, i, found),
{
    assert(v.map_values(|p: (Key, CompInfos)| p.0@) =~= keys_of(comps_view(v)));
}

impl InterpolationKeys {
    /// No component and no variable.
    pub fn new() -> (res: InterpolationKeys)
        ensures
            res@.comps == Seq::<(Seq<char>, bool)>::empty(),
            res@.vars == Seq::<(Seq<char>, VarInfosV)>::empty(),
    {
        let res = InterpolationKeys { components: Vec::new(), vars: Vec::new() };
        assert(res@.comps =~= Seq::<(Seq<char>, bool)>::empty());
        assert(res@.vars =~= Seq::<(Seq<char>, VarInfosV)>::empty());
        res
    }

    /// Records that variable `key` is used with bound `b`.
    pub fn push_var(&mut self, key: &Key, b: VarBound)
        ensures
            final(self)@ == add_var_bound(old(self)@, key@, b),
    {
        let (i, found) = find_slot(&self.vars, key.name.as_str());
        proof {
            lemma_vars_view_slot(self.vars@, key@, i as int, found);
        }
        let ghost m = vars_view(self.vars@);
        if found {
            let ghost old_info = self.vars@[i as int].1@;
            let (k, mut info) = self.vars.remove(i);
            bounds_insert(&mut info.bounds, b);
            let ghost entry = (key@, VarInfosV { bounds: bounds_put(old_info.bounds, b), plural: old_info.plural });
            self.vars.insert(i, (k, info));
            proof {
                lemma_slot(m, key@, entry.1, i as int, true);
                assert(vars_view(self.vars@) =~= m.update(i as int, entry));
            }
        } else {
            let mut info = VarInfos { bounds: Vec::new(), plural: false };
            bounds_insert(&mut info.bounds, b);
            assert(info.bounds@ == bounds_put(Seq::<VarBound>::empty(), b));
            let ghost entry = (key@, VarInfosV { bounds: bounds_put(Seq::<VarBound>::empty(), b), plural: false });
            self.vars.insert(i, (key.copy(), info));
            proof {
                lemma_slot(m, key@, entry.1, i as int, false);
                assert(vars_view(self.vars@) =~= m.insert(i as int, entry));
            }
        }
    }

    /// Records that variable `key` counts a plural.
    pub fn push_plural(&mut self, key: &Key)
        ensures
            final(self)@ == mark_plural(old(self)@, key@),
    {
        let (i, found) = find_slot(&self.vars, key.name.as_str());
        proof {
            lemma_vars_view_slot(self.vars@, key@, i as int, found);
        }
        let ghost m = vars_view(self.vars@);
        if found {
            let ghost old_info = self.vars@[i as int].1@;
            let (k, mut info) = self.vars.remove(i);
            info.plural = true;
            let ghost entry = (key@, VarInfosV { bounds: old_info.bounds, plural: true });
            self.vars.insert(i, (k, info));
            proof {
                lemma_slot(m, key@, entry.1, i as int, true);
                assert(vars_view(self.vars@) =~= m.update(i as int, entry));
            }
        } else {
            let info = VarInfos { bounds: Vec::new(), plural: true };
            let ghost entry = (key@, VarInfosV { bounds: Seq::<VarBound>::empty(), plural: true });
            self.vars.insert(i, (key.copy(), info));
            proof {
                lemma_slot(m, key@, entry.1, i as int, false);
                assert(vars_view(self.vars@) =~= m.insert(i as int, entry));
            }
        }
    }

    /// Records component `key`; `false`, with nothing changed, when it is
    /// already known with the other shape.
    pub fn push_comp(&mut self, key: &Key, self_closed: bool) -> (res: bool)
        ensures
            res == add_comp(old(self)@, key@, self_closed) is Some,
            res ==> final(self)@ == add_comp(old(self)@, key@, self_closed)->0,
            !res ==> final(self)@ == old(self)@,
    {
        let (i, found) = find_slot(&self.components, key.name.as_str());
        proof {
            lemma_comps_view_slot(self.components@, key@, i as int, found);
        }
        let ghost m = comps_view(self.components@);
        if found {
            proof {
                lemma_slot(m, key@, self_closed, i as int, true);
            }
            self.components[i].1.self_closed == self_closed
        } else {
            self.components.insert(i, (key.copy(), CompInfos { self_closed }));
            proof {
                lemma_slot(m, key@, self_closed, i as int, false);
                assert(comps_view(self.components@) =~= m.insert(i as int, (key@, self_closed)));
            }
            true
        }
    }
}

/// A formatter name as a builder name spells it: ASCII letters kept, any
/// other character replaced by `_`.
pub open spec fn name_code(s: Seq<char>) -> Seq<char> {
    s.map_values(|c: char| if is_ascii_alpha(c) { c } else { '_' })
}

/// The part a bound adds to a builder name.
pub open spec fn bound_code(b: VarBound) -> Seq<char> {
    match b {
        VarBound::Dummy => "dy"@,
        VarBound::Unformatted => Seq::empty(),
        VarBound::AttributeValue => "ar"@,
        VarBound::Formatted(f) => name_code(formatter_name(f)),
    }
}

pub open spec fn bounds_code(bs: Seq<VarBound>) -> Seq<char>
    decreases bs.len(),
{
    if bs.len() == 0 {
        Seq::empty()
    } else {
        bounds_code(bs.drop_last()) + bound_code(bs.last())
    }
}

/// The part a variable adds: its name, `pl` if it counts a plural, its
/// bounds, and `_`.
pub open spec fn var_code(e: (Seq<char>, VarInfosV)) -> Seq<char> {
    e.0 + (if e.1.plural {
        "pl"@
    } else {
        Seq::empty()
    }) + bounds_code(e.1.bounds) + "_"@
}

/// The part a component adds: its name, `sf` if self-closed, and `_`.
pub open spec fn comp_code(e: (Seq<char>, bool)) -> Seq<char> {
    e.0 + (if e.1 {
        "sf"@
    } else {
        Seq::empty()
    }) + "_"@
}

pub open spec fn vars_code(vs: Seq<(Seq<char>, VarInfosV)>) -> Seq<char>
    decreases vs.len(),
{
    if vs.len() == 0 {
        Seq::empty()
    } else {
        vars_code(vs.drop_last()) + var_code(vs.last())
    }
}

pub open spec fn comps_code(cs: Seq<(Seq<char>, bool)>) -> Seq<char>
    decreases cs.len(),
{
    if cs.len() == 0 {
        Seq::empty()
    } else {
        comps_code(cs.drop_last()) + comp_code(cs.last())
    }
}

/// The builder name of a set of keys: `i18n_builder_`, the variables, then
/// the components.
pub open spec fn spec_builder_key(k: KeysV) -> Seq<char> {
    "i18n_builder_"@ + vars_code(k.vars) + comps_code(k.comps)
}

fn bounds_append(s: &mut String, bs: &Vec<VarBound>)
    ensures
        final(s)@ == old(s)@ + bounds_code(bs@),
{
    proof {
        reveal_strlit("dy");
        reveal_strlit("ar");
    }
    let mut i: usize = 0;
    assert(bs@.take(0) =~= Seq::<VarBound>::empty());
    while i < bs.len()
        invariant
            i <= bs@.len(),
            s@ == old(s)@ + bounds_code(bs@.take(i as int)),
        decreases bs@.len() - i,
    {
        let ghost before = s@;
        match bs[i] {
            VarBound::Dummy => s.append("dy"),
            VarBound::Unformatted => {},
            VarBound::AttributeValue => s.append("ar"),
            VarBound::Formatted(f) => InterpolationKeys::write_formatter_name(s, formatter_name_str(f)),
        }
        assert(bs@.take(i + 1).drop_last() =~= bs@.take(i as int));
        assert(s@ =~= before + bound_code(bs@[i as int]));
        i = i + 1;
    }
    assert(bs@.take(i as int) =~= bs@);
}

impl InterpolationKeys {
    /// Appends `f_name` to `s`, with every character that is not an ASCII
    /// letter written `_`.
    pub fn write_formatter_name(s: &mut String, f_name: &str)
        ensures
            final(s)@ == old(s)@ + name_code(f_name@),
    {
        let n = f_name.unicode_len();
        let mut i: usize = 0;
        while i < n
            invariant
                n == f_name@.len(),
                i <= n,
                s@ == old(s)@ + name_code(f_name@.take(i as int)),
            decreases n - i,
        {
            let c = f_name.get_char(i);
            if char_is_ascii_alpha(c) {
                s.append(f_name.substring_char(i, i + 1));
            } else {
                s.append("_");
            }
            proof {
                reveal_strlit("_");
                assert(f_name@.take(i + 1) =~= f_name@.take(i as int).push(c));
                assert(name_code(f_name@.take(i + 1)) =~= name_code(f_name@.take(i as int)).push(
                    if is_ascii_alpha(c) { c } else { '_' },
                ));
            }
            i = i + 1;
        }
        assert(f_name@.take(n as int) =~= f_name@);
    }

    /// The builder name of these keys.
    pub fn generate_builder_key(&self) -> (res: String)
        ensures
            res@ == spec_builder_key(self@),
    {
        proof {
            reveal_strlit("i18n_builder_");
            reveal_strlit("pl");
            reveal_strlit("sf");
            reveal_strlit("_");
        }
        let mut s = to_owned("i18n_builder_");
        let ghost vs = self@.vars;
        let ghost cs = self@.comps;
        let mut i: usize = 0;
        assert(vs.take(0) =~= Seq::<(Seq<char>, VarInfosV)>::empty());
        while i < self.vars.len()
            invariant
                vs == self@.vars,
                vs.len() == self.vars@.len(),
                i <= self.vars@.len(),
                s@ == "i18n_builder_"@ + vars_code(vs.take(i as int)),
            decreases self.vars@.len() - i,
        {
            let ghost before = s@;
            let (key, info) = &self.vars[i];
            assert(vs[i as int] == (key@, info@));
            s.append(key.name.as_str());
            if info.plural {
                s.append("pl");
            }
            bounds_append(&mut s, &info.bounds);
            s.append("_");
            assert(vs.take(i + 1).drop_last() =~= vs.take(i as int));
            assert(s@ =~= before + var_code(vs[i as int]));
            i = i + 1;
        }
        assert(vs.take(i as int) =~= vs);
        let ghost mid = s@;
        let mut j: usize = 0;
        assert(cs.take(0) =~= Seq::<(Seq<char>, bool)>::empty());
        while j < self.components.len()
            invariant
                cs == self@.comps,
                cs.len() == self.components@.len(),
                j <= self.components@.len(),
                s@ == mid + comps_code(cs.take(j as int)),
            decreases self.components@.len() - j,
        {
            let ghost before = s@;
            let (key, info) = &self.components[j];
            assert(cs[j as int] == (key@, info.self_closed));
            s.append(key.name.as_str());
            if info.self_closed {
                s.append("sf");
            }
            s.append("_");
            assert(cs.take(j + 1).drop_last() =~= cs.take(j as int));
            assert(s@ =~= before + comp_code(cs[j as int]));
            j = j + 1;
        }
        assert(cs.take(j as int) =~= cs);
        s
    }
}

/// The keys after a dummy placeholder: a variable gets the `Dummy` bound, a
/// component is recorded as not self-closed.
pub open spec fn dummy_keys(d: DummyV, k: KeysV) -> Option<KeysV> {
    match d {
        DummyV::Variable(key) => Some(add_var_bound(k, key, VarBound::Dummy)),
        DummyV::Component(key) => add_comp(k, key, false),
    }
}

pub open spec fn dummies_keys(ds: Seq<DummyV>, k: KeysV) -> Option<KeysV>
    decreases ds.len(),
{
    if ds.len() == 0 {
        Some(k)
    } else {
        match dummies_keys(ds.drop_last(), k) {
            Some(k1) => dummy_keys(ds.last(), k1),
            None => None,
        }
    }
}

/// The variables used as attribute values added, in order, each with the
/// attribute-value bound.
pub open spec fn attr_vars_extract(attrs: Seq<AttributeV>, k: KeysV) -> KeysV
    decreases attrs.len(),
{
    if attrs.len() == 0 {
        k
    } else {
        let k1 = attr_vars_extract(attrs.drop_last(), k);
        match attrs.last().value {
            Some(AttributeValueV::Variable(v)) => add_var_bound(k1, v, VarBound::AttributeValue),
            _ => k1,
        }
    }
}

/// The interpolation keys of a value added to `k`, in the order the value
/// is read: a variable adds its bound; a component its inner keys, then
/// itself (self-closed when it has no inner value); a plural its forms,
/// then marks its count variable; a resolved foreign key what it resolved
/// to. `None` when a component is used both self-closed and not.
pub open spec fn spec_extract(v: ValueV, k: KeysV) -> Option<KeysV>
    decreases v,
{
    match v {
        ValueV::Default => Some(k),
        ValueV::Literal(_) => Some(k),
        ValueV::ForeignKey(FkV::NotSet(_, _)) => Some(k),
        ValueV::ForeignKey(FkV::Resolved(b)) => spec_extract(*b, k),
        ValueV::Variable(key, b) => Some(add_var_bound(k, key, b)),
        ValueV::Component(key, inner, attrs) => {
            let ka = attr_vars_extract(attrs, k);
            match inner {
                Some(b) => match spec_extract(*b, ka) {
                    Some(k1) => add_comp(k1, key, false),
                    None => None,
                },
                None => add_comp(ka, key, true),
            }
        },
        ValueV::Bloc(vs) => spec_extract_seq(vs, k),
        ValueV::Plurals(p) => match spec_extract_forms(p.forms, k) {
            Some(k1) => match spec_extract(*p.other, k1) {
                Some(k2) => Some(mark_plural(k2, p.count_key)),
                None => None,
            },
            None => None,
        },
        ValueV::Dummy(ds) => dummies_keys(ds, k),
        ValueV::Subkeys(_) => Some(k),
    }
}

pub open spec fn spec_extract_seq(vs: Seq<ValueV>, k: KeysV) -> Option<KeysV>
    decreases vs,
{
    if vs.len() == 0 {
        Some(k)
    } else {
        match spec_extract_seq(vs.drop_last(), k) {
            Some(k1) => spec_extract(vs.last(), k1),
            None => None,
        }
    }
}

pub open spec fn spec_extract_forms(fs: Seq<(PluralForm, ValueV)>, k: KeysV) -> Option<KeysV>
    decreases fs,
{
    if fs.len() == 0 {
        Some(k)
    } else {
        match spec_extract_forms(fs.drop_last(), k) {
            Some(k1) => spec_extract(fs.last().1, k1),
            None => None,
        }
    }
}

proof fn lemma_extract_seq_prefix(vs: Seq<ValueV>, k: KeysV, i: int)
    requires
        0 <= i <= vs.len(),
        spec_extract_seq(vs, k) is Some,
    ensures
        spec_extract_seq(vs.take(i), k) is Some,
    decreases vs.len() - i,
{
    if i == vs.len() {
        assert(vs.take(i) =~= vs);
    } else {
        lemma_extract_seq_prefix(vs, k, i + 1);
        assert(vs.take(i + 1).drop_last() =~= vs.take(i));
    }
}

proof fn lemma_extract_forms_prefix(fs: Seq<(PluralForm, ValueV)>, k: KeysV, i: int)
    requires
        0 <= i <= fs.len(),
        spec_extract_forms(fs, k) is Some,
    ensures
        spec_extract_forms(fs.take(i), k) is Some,
    decreases fs.len() - i,
{
    if i == fs.len() {
        assert(fs.take(i) =~= fs);
    } else {
        lemma_extract_forms_prefix(fs, k, i + 1);
        assert(fs.take(i + 1).drop_last() =~= fs.take(i));
    }
}

proof fn lemma_dummies_prefix(ds: Seq<DummyV>, k: KeysV, i: int)
    requires
        0 <= i <= ds.len(),
        dummies_keys(ds, k) is Some,
    ensures
        dummies_keys(ds.take(i), k) is Some,
    decreases ds.len() - i,
{
    if i == ds.len() {
        assert(ds.take(i) =~= ds);
    } else {
        lemma_dummies_prefix(ds, k, i + 1);
        assert(ds.take(i + 1).drop_last() =~= ds.take(i));
    }
}

fn extract_dummies(ds: &Vec<Dummy>, keys: &mut InterpolationKeys)
    requires
        dummies_keys(ds@.map_values(|d: Dummy| d@), old(keys)@) is Some,
    ensures
        final(keys)@ == dummies_keys(ds@.map_values(|d: Dummy| d@), old(keys)@)->0,
{
    let ghost dv = ds@.map_values(|d: Dummy| d@);
    let ghost k0 = keys@;
    let mut i: usize = 0;
    assert(dv.take(0) =~= Seq::<DummyV>::empty());
    while i < ds.len()
        invariant
            dv == ds@.map_values(|d: Dummy| d@),
            i <= ds@.len(),
            dummies_keys(dv, k0) is Some,
            dummies_keys(dv.take(i as int), k0) == Some(keys@),
        decreases ds@.len() - i,
    {
        proof {
            lemma_dummies_prefix(dv, k0, i + 1);
            assert(dv.take(i + 1).drop_last() =~= dv.take(i as int));
            assert(dv.take(i + 1).last() == ds@[i as int]@);
        }
        match &ds[i] {
            Dummy::Variable(key) => keys.push_var(key, VarBound::Dummy),
            Dummy::Component(key) => {
                let _ = keys.push_comp(key, false);
            },
        }
        i = i + 1;
    }
    assert(dv.take(i as int) =~= dv);
}

/// Adds the variables used as attribute values (see `attr_vars_extract`).
fn extract_attr_vars(attrs: &Vec<Attribute>, keys: &mut InterpolationKeys)
    ensures
        final(keys)@ == attr_vars_extract(attrs_view(attrs@), old(keys)@),
{
    let ghost av = attrs_view(attrs@);
    let ghost k0 = keys@;
    let mut i: usize = 0;
    assert(av.take(0) =~= Seq::<AttributeV>::empty());
    while i < attrs.len()
        invariant
            i <= attrs@.len(),
            av == attrs_view(attrs@),
            av.len() == attrs@.len(),
            keys@ == attr_vars_extract(av.take(i as int), k0),
        decreases attrs@.len() - i,
    {
        proof {
            assert(av.take(i + 1).drop_last() =~= av.take(i as int));
            assert(av.take(i + 1).last() == av[i as int]);
            assert(av[i as int] == attrs@[i as int]@);
        }
        match &attrs[i].value {
            Some(AttributeValue::Variable(name)) => {
                keys.push_var(name, VarBound::AttributeValue);
            },
            _ => {},
        }
        i = i + 1;
    }
    assert(av.take(i as int) =~= av);
}

/// Adds the interpolation keys of `value` to `keys` (see `spec_extract`).
pub fn extract_value_keys(value: &ParsedValue, keys: &mut InterpolationKeys)
    requires
        spec_extract(value@, old(keys)@) is Some,
    ensures
        final(keys)@ == spec_extract(value@, old(keys)@)->0,
    decreases value,
{
    match value {
        ParsedValue::Default => {},
        ParsedValue::Literal(_) => {},
        ParsedValue::ForeignKey(fk) => match fk {
            ForeignKey::NotSet(_, _) => {},
            ForeignKey::Resolved(b) => extract_value_keys(b, keys),
        },
        ParsedValue::Variable { key, formatter } => keys.push_var(key, *formatter),
        ParsedValue::Component { key, inner, attributes } => {
            extract_attr_vars(attributes, keys);
            match inner {
                Some(b) => {
                    extract_value_keys(b, keys);
                    let _ = keys.push_comp(key, false);
                },
                None => {
                    let _ = keys.push_comp(key, true);
                },
            }
        },
        ParsedValue::Bloc(vs) => {
            let ghost vv = view_values(vs@);
            let ghost k0 = keys@;
            proof {
                lemma_view_values_len(vs@);
            }
            let mut i: usize = 0;
            assert(vv.take(0) =~= Seq::<ValueV>::empty());
            while i < vs.len()
                invariant
                    vv == view_values(vs@),
                    *value == ParsedValue::Bloc(*vs),
                    vv.len() == vs@.len(),
                    forall|j: int| 0 <= j < vs@.len() ==> #[trigger] vv[j] == view_value(vs@[j]),
                    i <= vs@.len(),
                    spec_extract_seq(vv, k0) is Some,
                    spec_extract_seq(vv.take(i as int), k0) == Some(keys@),
                decreases vs@.len() - i,
            {
                proof {
                    lemma_extract_seq_prefix(vv, k0, i + 1);
                    assert(vv.take(i + 1).drop_last() =~= vv.take(i as int));
                    assert(vv.take(i + 1).last() == vs@[i as int]@);
                }
                proof {
                    assert(decreases_to!(*value => (*value)->Bloc_0));
                    assert(decreases_to!(*vs => vs@));
                    assert(decreases_to!(vs@ => vs@[i as int]));
                    assert(decreases_to!(*value => vs@[i as int]));
                }
                extract_value_keys(&vs[i], keys);
                i = i + 1;
            }
            assert(vv.take(i as int) =~= vv);
        },
        ParsedValue::Plurals(p) => {
            let ghost fv = view_forms(p.forms@);
            let ghost k0 = keys@;
            proof {
                lemma_view_forms_len(p.forms@);
            }
            let mut i: usize = 0;
            assert(fv.take(0) =~= Seq::<(PluralForm, ValueV)>::empty());
            while i < p.forms.len()
                invariant
                    fv == view_forms(p.forms@),
                    *value == ParsedValue::Plurals(*p),
                    fv.len() == p.forms@.len(),
                    forall|j: int|
                        0 <= j < p.forms@.len() ==> #[trigger] fv[j] == (
                            p.forms@[j].0,
                            view_value(p.forms@[j].1),
                        ),
                    i <= p.forms@.len(),
                    spec_extract_forms(fv, k0) is Some,
                    spec_extract_forms(fv.take(i as int), k0) == Some(keys@),
                decreases p.forms@.len() - i,
            {
                proof {
                    lemma_extract_forms_prefix(fv, k0, i + 1);
                    assert(fv.take(i + 1).drop_last() =~= fv.take(i as int));
                    assert(fv.take(i + 1).last() == (p.forms@[i as int].0, p.forms@[i as int].1@));
                }
                proof {
                    assert(decreases_to!(*value => (*value)->Plurals_0));
                    assert(decreases_to!(*p => p.forms));
                    assert(decreases_to!(p.forms => p.forms@));
                    assert(decreases_to!(p.forms@ => p.forms@[i as int]));
                    assert(decreases_to!(p.forms@[i as int] => p.forms@[i as int].1));
                    assert(decreases_to!(*value => p.forms@[i as int].1));
                }
                extract_value_keys(&p.forms[i].1, keys);
                i = i + 1;
            }
            assert(fv.take(i as int) =~= fv);
            extract_value_keys(&p.other, keys);
            keys.push_plural(&p.count_key);
        },
        ParsedValue::Dummy(ds) => extract_dummies(ds, keys),
        ParsedValue::Subkeys(_) => {},
    }
}

/// What identifies a variable for builder sharing: its name, the rank and
/// name of each bound, and whether it counts a plural.
pub open spec fn var_shape(e: (Seq<char>, VarInfosV)) -> (Seq<char>, Seq<(int, Seq<char>)>, bool) {
    (e.0, e.1.bounds.map_values(|b: VarBound| (bound_rank(b), bound_name(b))), e.1.plural)
}

/// Two sets of keys share a builder when their shapes are equal.
pub open spec fn keys_shape(k: KeysV) -> (Seq<(Seq<char>, bool)>, Seq<(Seq<char>, Seq<(int, Seq<char>)>, bool)>) {
    (k.comps, k.vars.map_values(|e: (Seq<char>, VarInfosV)| var_shape(e)))
}

fn same_bounds(a: &Vec<VarBound>, b: &Vec<VarBound>) -> (res: bool)
    ensures
        res == (a@.map_values(|x: VarBound| (bound_rank(x), bound_name(x))) == b@.map_values(
            |x: VarBound| (bound_rank(x), bound_name(x)),
        )),
{
    let ghost sa = a@.map_values(|x: VarBound| (bound_rank(x), bound_name(x)));
    let ghost sb = b@.map_values(|x: VarBound| (bound_rank(x), bound_name(x)));
    if a.len() != b.len() {
        assert(sa.len() != sb.len());
        return false;
    }
    let mut i: usize = 0;
    while i < a.len()
        invariant
            a@.len() == b@.len(),
            i <= a@.len(),
            sa == a@.map_values(|x: VarBound| (bound_rank(x), bound_name(x))),
            sb == b@.map_values(|x: VarBound| (bound_rank(x), bound_name(x))),
            forall|j: int| 0 <= j < i ==> sa[j] == sb[j],
        decreases a@.len() - i,
    {
        if bound_rank_exec(a[i]) != bound_rank_exec(b[i]) || !str_eq(
            bound_name_exec(a[i]),
            bound_name_exec(b[i]),
        ) {
            assert(sa[i as int] != sb[i as int]);
            return false;
        }
        i = i + 1;
    }
    assert(sa =~= sb);
    true
}

/// Whether two sets of keys have the same shape.
pub fn same_keys(a: &InterpolationKeys, b: &InterpolationKeys) -> (res: bool)
    ensures
        res == (keys_shape(a@) == keys_shape(b@)),
{
    let ghost ca = a@.comps;
    let ghost cb = b@.comps;
    let ghost va = a@.vars.map_values(|e: (Seq<char>, VarInfosV)| var_shape(e));
    let ghost vb = b@.vars.map_values(|e: (Seq<char>, VarInfosV)| var_shape(e));
    if a.components.len() != b.components.len() || a.vars.len() != b.vars.len() {
        assert(ca.len() != cb.len() || va.len() != vb.len());
        return false;
    }
    let mut i: usize = 0;
    while i < a.components.len()
        invariant
            a.components@.len() == b.components@.len(),
            ca == a@.comps,
            cb == b@.comps,
            i <= a.components@.len(),
            forall|j: int| 0 <= j < i ==> ca[j] == cb[j],
        decreases a.components@.len() - i,
    {
        if !str_eq(a.components[i].0.name.as_str(), b.components[i].0.name.as_str())
            || a.components[i].1.self_closed != b.components[i].1.self_closed {
            assert(ca[i as int] != cb[i as int]);
            return false;
        }
        i = i + 1;
    }
    assert(ca =~= cb);
    let mut j: usize = 0;
    while j < a.vars.len()
        invariant
            a.vars@.len() == b.vars@.len(),
            va == a@.vars.map_values(|e: (Seq<char>, VarInfosV)| var_shape(e)),
            vb == b@.vars.map_values(|e: (Seq<char>, VarInfosV)| var_shape(e)),
            j <= a.vars@.len(),
            forall|k: int| 0 <= k < j ==> va[k] == vb[k],
        decreases a.vars@.len() - j,
    {
        let (ka, ia) = &a.vars[j];
        let (kb, ib) = &b.vars[j];
        assert(va[j as int] == var_shape((ka@, ia@)));
        assert(vb[j as int] == var_shape((kb@, ib@)));
        if !str_eq(ka.name.as_str(), kb.name.as_str()) || ia.plural != ib.plural || !same_bounds(
            &ia.bounds,
            &ib.bounds,
        ) {
            assert(va[j as int] != vb[j as int]);
            return false;
        }
        j = j + 1;
    }
    assert(va =~= vb);
    true
}

/// The number of names of length at least `l`.
pub open spec fn count_len_ge(s: Seq<Seq<char>>, l: nat) -> nat
    decreases s.len(),
{
    if s.len() == 0 {
        0
    } else {
        count_len_ge(s.drop_last(), l) + (if s.last().len() >= l {
            1nat
        } else {
            0nat
        })
    }
}

pub proof fn lemma_count_len_ge(s: Seq<Seq<char>>, x: Seq<char>)
    ensures
        count_len_ge(s, x.len() + 1) <= count_len_ge(s, x.len()),
        s.contains(x) ==> count_len_ge(s, x.len() + 1) < count_len_ge(s, x.len()),
    decreases s.len(),
{
    if s.len() > 0 {
        lemma_count_len_ge(s.drop_last(), x);
        if s.contains(x) && s.last() != x {
            let i = choose|i: int| 0 <= i < s.len() && s[i] == x;
            assert(s.drop_last()[i] == x);
        }
    }
}

/// The first of `n`, `n_`, `n__`, ... that is not among `taken`.
pub open spec fn fresh_name(taken: Seq<Seq<char>>, n: Seq<char>) -> Seq<char>
    decreases count_len_ge(taken, n.len()),
{
    if taken.contains(n) {
        proof {
            reveal_strlit("_");
            lemma_count_len_ge(taken, n);
        }
        fresh_name(taken, n + "_"@)
    } else {
        n
    }
}

fn contains_str(v: &Vec<String>, s: &str) -> (res: bool)
    ensures
        res == v@.map_values(|x: String| x@).contains(s@),
{
    let ghost vs = v@.map_values(|x: String| x@);
    let mut i: usize = 0;
    while i < v.len()
        invariant
            vs == v@.map_values(|x: String| x@),
            i <= v@.len(),
            forall|j: int| 0 <= j < i ==> vs[j] != s@,
        decreases v@.len() - i,
    {
        if str_eq(v[i].as_str(), s) {
            assert(vs[i as int] == s@);
            return true;
        }
        i = i + 1;
    }
    false
}

fn key_eq(a: &Key, b: &Key) -> (res: bool)
    ensures
        res == (a@ == b@),
{
    str_eq(a.name.as_str(), b.name.as_str())
}

/// Whether two key paths are equal.
pub fn key_path_eq(a: &KeyPath, b: &KeyPath) -> (res: bool)
    ensures
        res == (a@ == b@),
{
    let ns = match (&a.namespace, &b.namespace) {
        (Some(x), Some(y)) => key_eq(x, y),
        (None, None) => true,
        _ => false,
    };
    if !ns {
        return false;
    }
    if a.path.len() != b.path.len() {
        assert(a@.path.len() != b@.path.len());
        return false;
    }
    let mut i: usize = 0;
    while i < a.path.len()
        invariant
            a.path@.len() == b.path@.len(),
            i <= a.path@.len(),
            forall|j: int| 0 <= j < i ==> a@.path[j] == b@.path[j],
        decreases a.path@.len() - i,
    {
        if !key_eq(&a.path[i], &b.path[i]) {
            assert(a@.path[i as int] != b@.path[i as int]);
            return false;
        }
        i = i + 1;
    }
    assert(a@.path =~= b@.path);
    true
}

fn contains_path(v: &Vec<KeyPath>, p: &KeyPath) -> (res: bool)
    ensures
        res == paths_view(v@).contains(p@),
{
    let ghost vs = paths_view(v@);
    let mut i: usize = 0;
    while i < v.len()
        invariant
            vs == paths_view(v@),
            i <= v@.len(),
            forall|j: int| 0 <= j < i ==> vs[j] != p@,
        decreases v@.len() - i,
    {
        if key_path_eq(&v[i], p) {
            assert(vs[i as int] == p@);
            return true;
        }
        i = i + 1;
    }
    false
}

/// Assigns builders to sets of interpolation keys: keys of the same shape
/// share one, each new shape gets the next index and a fresh name.
pub struct BuilderIndexer {
    ids: Vec<(InterpolationKeys, usize, Vec<KeyPath>)>,
    reverse_keys: Vec<Key>,
    keys: Vec<String>,
}

/// View of a builder indexer: its entries (keys, index, paths using them),
/// the builder names by index, and the names taken.
pub struct IndexerV {
    pub entries: Seq<(KeysV, usize, Seq<KeyPathV>)>,
    pub names: Seq<Seq<char>>,
    pub taken: Seq<Seq<char>>,
}

pub open spec fn paths_view(p: Seq<KeyPath>) -> Seq<KeyPathV> {
    p.map_values(|k: KeyPath| k@)
}

/// The entry whose keys have the shape of `k`, if any.
pub open spec fn find_entry(entries: Seq<(KeysV, usize, Seq<KeyPathV>)>, k: KeysV) -> Option<int>
    decreases entries.len(),
{
    if entries.len() == 0 {
        None
    } else {
        match find_entry(entries.drop_last(), k) {
            Some(i) => Some(i),
            None => if keys_shape(entries.last().0) == keys_shape(k) {
                Some(entries.len() - 1)
            } else {
                None
            },
        }
    }
}

/// `p` added to a set of paths.
pub open spec fn add_path(s: Seq<KeyPathV>, p: KeyPathV) -> Seq<KeyPathV> {
    if s.contains(p) {
        s
    } else {
        s.push(p)
    }
}

/// The name a new builder for `k` gets.
pub open spec fn new_builder_name(v: IndexerV, k: KeysV) -> Seq<char> {
    fresh_name(v.taken, spec_builder_key(k))
}

/// The indexer after `push_keys(k, path)`, and the builder index returned.
pub open spec fn spec_push_keys(v: IndexerV, k: KeysV, path: KeyPathV) -> (IndexerV, usize) {
    match find_entry(v.entries, k) {
        Some(i) => (
            IndexerV {
                entries: v.entries.update(i, (v.entries[i].0, v.entries[i].1, add_path(v.entries[i].2, path))),
                names: v.names,
                taken: v.taken,
            },
            v.entries[i].1,
        ),
        None => {
            let name = new_builder_name(v, k);
            let id = v.names.len() as usize;
            (
                IndexerV {
                    entries: v.entries.push((k, id, seq![path])),
                    names: v.names.push(spec_key_new(name)->0),
                    taken: v.taken.push(name),
                },
                id,
            )
        },
    }
}

proof fn lemma_find_entry(entries: Seq<(KeysV, usize, Seq<KeyPathV>)>, k: KeysV, n: int)
    requires
        0 <= n <= entries.len(),
        forall|j: int| 0 <= j < n ==> keys_shape(#[trigger] entries[j].0) != keys_shape(k),
    ensures
        n == entries.len() ==> find_entry(entries, k) is None,
        n < entries.len() && keys_shape(entries[n].0) == keys_shape(k) ==> find_entry(entries, k) == Some(n),
    decreases entries.len(),
{
    if entries.len() > 0 {
        if n < entries.len() {
            if n == entries.len() - 1 {
                lemma_find_entry(entries.drop_last(), k, n);
            } else {
                lemma_find_entry(entries.drop_last(), k, n);
            }
        } else {
            lemma_find_entry(entries.drop_last(), k, n - 1);
        }
    }
}

/// Builders are numbered in the order they were made, each with a name.
pub open spec fn indexer_wf(v: IndexerV) -> bool {
    &&& v.names.len() == v.entries.len()
    &&& v.entries.len() <= usize::MAX
    &&& forall|j: int| 0 <= j < v.entries.len() ==> #[trigger] v.entries[j].1 == j
}

/// A builder: its name, the interpolation keys it takes, and the key paths
/// that use it.
pub struct Builder {
    pub name: Key,
    pub keys: InterpolationKeys,
    pub used_by: Vec<KeyPath>,
}

/// Pushing keys keeps the builders numbered in order.
pub proof fn lemma_push_keys_wf(v: IndexerV, k: KeysV, path: KeyPathV)
    requires
        indexer_wf(v),
    ensures
        spec_push_keys(v, k, path).0.names.len() == spec_push_keys(v, k, path).0.entries.len(),
        forall|j: int|
            0 <= j < spec_push_keys(v, k, path).0.entries.len() ==> #[trigger] spec_push_keys(v, k, path).0.entries[j].1
                == j,
{
    let r = spec_push_keys(v, k, path).0;
    match find_entry(v.entries, k) {
        Some(i) => {
            lemma_find_entry_some(v.entries, k);
            assert forall|j: int| 0 <= j < r.entries.len() implies #[trigger] r.entries[j].1 == j by {
                if j != i {
                    assert(r.entries[j] == v.entries[j]);
                }
            }
        },
        None => {
            assert forall|j: int| 0 <= j < r.entries.len() implies #[trigger] r.entries[j].1 == j by {
                if j < v.entries.len() {
                    assert(r.entries[j] == v.entries[j]);
                } else {
                    assert(r.entries[j].1 == v.names.len() as usize);
                }
            }
        },
    }
}

impl BuilderIndexer {
    pub closed spec fn view_of(&self) -> IndexerV {
        IndexerV {
            entries: self.ids@.map_values(
                |e: (InterpolationKeys, usize, Vec<KeyPath>)| (e.0@, e.1, paths_view(e.2@)),
            ),
            names: self.reverse_keys@.map_values(|k: Key| k@),
            taken: self.keys@.map_values(|s: String| s@),
        }
    }

    /// An indexer with no builder yet.
    pub fn new() -> (res: BuilderIndexer)
        ensures
            res.view_of().entries.len() == 0,
            res.view_of().names.len() == 0,
            res.view_of().taken.len() == 0,
            indexer_wf(res.view_of()),
    {
        BuilderIndexer { ids: Vec::new(), reverse_keys: Vec::new(), keys: Vec::new() }
    }

    /// The builders, by number: builder `j` has the `j`-th name, its keys
    /// and the paths that use it.
    pub fn into_builders(self) -> (res: Vec<(BuilderId, Builder)>)
        requires
            indexer_wf(self.view_of()),
        ensures
            res@.len() == self.view_of().entries.len(),
            forall|j: int|
                0 <= j < res@.len() ==> {
                    let b = #[trigger] res@[j];
                    &&& b.0.0 == j
                    &&& b.1.name@ == self.view_of().names[j]
                    &&& b.1.keys@ == self.view_of().entries[j].0
                    &&& paths_view(b.1.used_by@) == self.view_of().entries[j].2
                },
    {
        let ghost v = self.view_of();
        let BuilderIndexer { ids, reverse_keys, keys: _ } = self;
        let mut out: Vec<(BuilderId, Builder)> = Vec::new();
        let mut rest = ids;
        let ghost all = rest@;
        let mut i: usize = 0;
        while i < reverse_keys.len() && rest.len() > 0
            invariant
                v.entries == all.map_values(
                    |e: (InterpolationKeys, usize, Vec<KeyPath>)| (e.0@, e.1, paths_view(e.2@)),
                ),
                v.names == reverse_keys@.map_values(|k: Key| k@),
                indexer_wf(v),
                i == out@.len(),
                i <= all.len(),
                rest@ == all.skip(i as int),
                forall|j: int|
                    0 <= j < out@.len() ==> {
                        let b = #[trigger] out@[j];
                        &&& b.0.0 == j
                        &&& b.1.name@ == v.names[j]
                        &&& b.1.keys@ == v.entries[j].0
                        &&& paths_view(b.1.used_by@) == v.entries[j].2
                    },
            decreases all.len() - i,
        {
            assert(rest@[0] == all[i as int]);
            let (k, id, used_by) = rest.remove(0);
            assert(v.entries[i as int].1 == i);
            assert(id == i);
            let name = reverse_keys[id].copy();
            out.push((BuilderId(id), Builder { name, keys: k, used_by }));
            assert(rest@ =~= all.skip(i + 1));
            i = i + 1;
        }
        assert(i == all.len()) by {
            if i < all.len() {
                assert(all.skip(i as int).len() > 0);
            }
        }
        out
    }

    /// The builder of `keys`, used at `path`: the one of keys of the same
    /// shape if there is one (the path is then added to its users), else a
    /// new one, whose name is the keys' builder name followed by as many `_`
    /// as make it unused.
    pub fn push_keys(&mut self, keys: InterpolationKeys, path: KeyPath) -> (res: BuilderId)
        requires
            find_entry(old(self).view_of().entries, keys@) is None ==> spec_key_new(
                new_builder_name(old(self).view_of(), keys@),
            ) is Some,
        ensures
            (final(self).view_of(), res.0) == spec_push_keys(old(self).view_of(), keys@, path@),
            indexer_wf(old(self).view_of()) ==> indexer_wf(final(self).view_of()),
    {
        proof {
            if indexer_wf(old(self).view_of()) {
                lemma_push_keys_wf(old(self).view_of(), keys@, path@);
            }
        }
        let ghost v0 = self.view_of();
        let ghost wf0 = indexer_wf(v0);
        let mut i: usize = 0;
        while i < self.ids.len()
            invariant
                v0 == self.view_of(),
                v0 == old(self).view_of(),
                v0.entries.len() == self.ids@.len(),
                i <= self.ids@.len(),
                forall|j: int| 0 <= j < i ==> keys_shape(#[trigger] v0.entries[j].0) != keys_shape(keys@),
            decreases self.ids@.len() - i,
        {
            assert(v0.entries[i as int].0 == self.ids@[i as int].0@);
            if same_keys(&self.ids[i].0, &keys) {
                proof {
                    lemma_find_entry(v0.entries, keys@, i as int);
                }
                let (k, id, mut paths) = self.ids.remove(i);
                let ghost p0 = paths_view(paths@);
                let found = contains_path(&paths, &path);
                if !found {
                    paths.push(path);
                    assert(paths_view(paths@) =~= p0.push(path@));
                }
                let ghost e = (k@, id, paths_view(paths@));
                self.ids.insert(i, (k, id, paths));
                assert(self.view_of().entries =~= v0.entries.update(i as int, e));
                assert(self.view_of().names =~= v0.names);
                assert(self.view_of().taken =~= v0.taken);
                assert(self.ids@.len() == self.ids.len());
                return BuilderId(id);
            }
            i = i + 1;
        }
        proof {
            lemma_find_entry(v0.entries, keys@, i as int);
        }
        let base = keys.generate_builder_key();
        let mut name = base;
        proof {
            reveal_strlit("_");
        }
        while contains_str(&self.keys, name.as_str())
            invariant
                v0 == self.view_of(),
                v0.taken == self.keys@.map_values(|s: String| s@),
                fresh_name(v0.taken, name@) == new_builder_name(v0, keys@),
            decreases count_len_ge(v0.taken, name@.len()),
        {
            proof {
                reveal_strlit("_");
                lemma_count_len_ge(v0.taken, name@);
            }
            name.append("_");
        }
        let key = Key::new(name.as_str()).unwrap();
        let id = self.reverse_keys.len();
        let ghost kv = keys@;
        self.reverse_keys.push(key);
        let mut used_by: Vec<KeyPath> = Vec::new();
        used_by.push(path);
        self.ids.push((keys, id, used_by));
        self.keys.push(name);
        proof {
            assert(paths_view(used_by@) =~= seq![path@]);
        }
        assert(self.view_of().entries =~= v0.entries.push((kv, id, seq![path@])));
        assert(self.view_of().names =~= v0.names.push(spec_key_new(new_builder_name(v0, kv))->0));
        assert(self.view_of().taken =~= v0.taken.push(new_builder_name(v0, kv)));
        assert(self.ids@.len() == self.ids.len());
        BuilderId(id)
    }
}

/// Bounds are ordered totally: by rank (placeholder, plain, formatted,
/// attribute value), then formatted bounds by formatter name; no bound
/// comes before itself, the order is transitive, and of two bounds that are
/// not the same bound one comes before the other.
pub proof fn law_bound_order_total(a: VarBound, b: VarBound, c: VarBound)
    ensures
        !bound_before(a, a),
        bound_before(a, b) && bound_before(b, c) ==> bound_before(a, c),
        bound_before(a, b) ==> !bound_before(b, a),
        !same_bound(a, b) ==> bound_before(a, b) || bound_before(b, a),
{
    lemma_str_less_irrefl(bound_name(a));
    if bound_before(a, b) && bound_before(b, c) && bound_rank(a) == bound_rank(b) && bound_rank(b) == bound_rank(c) {
        lemma_str_less_trans(bound_name(a), bound_name(b), bound_name(c));
    }
    if bound_before(a, b) && bound_rank(a) == bound_rank(b) && str_less(bound_name(b), bound_name(a)) {
        lemma_str_less_trans(bound_name(a), bound_name(b), bound_name(a));
    }
    if !same_bound(a, b) && bound_rank(a) == bound_rank(b) {
        lemma_str_less_total(bound_name(a), bound_name(b));
    }
}

proof fn lemma_fresh_name(taken: Seq<Seq<char>>, n: Seq<char>)
    ensures
        !taken.contains(fresh_name(taken, n)),
    decreases count_len_ge(taken, n.len()),
{
    if taken.contains(n) {
        reveal_strlit("_");
        lemma_count_len_ge(taken, n);
        lemma_fresh_name(taken, n + "_"@);
    }
}

/// `u` underscores.
pub open spec fn underscores(u: nat) -> Seq<char> {
    Seq::new(u, |i: int| '_')
}

proof fn lemma_fresh_name_shape(taken: Seq<Seq<char>>, n: Seq<char>)
    ensures
        exists|u: nat| fresh_name(taken, n) == n + underscores(u),
    decreases count_len_ge(taken, n.len()),
{
    reveal_strlit("_");
    if taken.contains(n) {
        lemma_count_len_ge(taken, n);
        lemma_fresh_name_shape(taken, n + "_"@);
        let u = choose|u: nat| fresh_name(taken, n + "_"@) == (n + "_"@) + underscores(u);
        assert((n + "_"@) + underscores(u) =~= n + underscores(u + 1));
    } else {
        assert(n + underscores(0) =~= n);
    }
}

/// No name is taken twice.
pub open spec fn names_unique(taken: Seq<Seq<char>>) -> bool {
    forall|i: int, j: int| 0 <= i < j < taken.len() ==> taken[i] != taken[j]
}

/// The name of a new builder is the builder key of its interpolation keys
/// followed by as many underscores as it takes to make it new, and the
/// names taken stay distinct.
pub proof fn law_builder_names(v: IndexerV, k: KeysV, p: KeyPathV)
    requires
        names_unique(v.taken),
    ensures
        exists|u: nat| new_builder_name(v, k) == spec_builder_key(k) + underscores(u),
        !v.taken.contains(new_builder_name(v, k)),
        names_unique(spec_push_keys(v, k, p).0.taken),
{
    lemma_fresh_name(v.taken, spec_builder_key(k));
    lemma_fresh_name_shape(v.taken, spec_builder_key(k));
    let t = spec_push_keys(v, k, p).0.taken;
    if find_entry(v.entries, k) is None {
        let name = new_builder_name(v, k);
        assert(t == v.taken.push(name));
        assert forall|i: int, j: int| 0 <= i < j < t.len() implies t[i] != t[j] by {
            if j == v.taken.len() {
                assert(t[i] == v.taken[i]);
            } else {
                assert(t[i] == v.taken[i] && t[j] == v.taken[j]);
            }
        }
    }
}

/// Keys of a new shape get a new builder: its number is the number of
/// builders made before (every earlier builder has a smaller one), and its
/// name is taken by no earlier builder.
pub proof fn law_new_shape_new_builder(v: IndexerV, k: KeysV, p: KeyPathV)
    requires
        indexer_wf(v),
        forall|j: int| 0 <= j < v.entries.len() ==> keys_shape(#[trigger] v.entries[j].0) != keys_shape(k),
    ensures
        spec_push_keys(v, k, p).1 == v.entries.len(),
        forall|j: int| 0 <= j < v.entries.len() ==> #[trigger] v.entries[j].1 != spec_push_keys(v, k, p).1,
        !v.taken.contains(new_builder_name(v, k)),
        spec_push_keys(v, k, p).0.taken == v.taken.push(new_builder_name(v, k)),
{
    lemma_find_entry(v.entries, k, v.entries.len() as int);
    lemma_fresh_name(v.taken, spec_builder_key(k));
}

/// Keys of one shape share one builder: pushing keys of the same shape
/// twice, at any paths, gives the same builder index both times.
pub proof fn law_same_shape_same_builder(v: IndexerV, k1: KeysV, k2: KeysV, p1: KeyPathV, p2: KeyPathV)
    requires
        keys_shape(k1) == keys_shape(k2),
    ensures
        spec_push_keys(spec_push_keys(v, k1, p1).0, k2, p2).1 == spec_push_keys(v, k1, p1).1,
{
    let (v1, id1) = spec_push_keys(v, k1, p1);
    match find_entry(v.entries, k1) {
        Some(i) => {
            lemma_find_entry_some(v.entries, k1);
            assert forall|j: int| 0 <= j < i implies keys_shape(#[trigger] v1.entries[j].0) != keys_shape(k2) by {
                assert(v1.entries[j] == v.entries[j]);
            }
            lemma_find_entry(v1.entries, k2, i);
        },
        None => {
            lemma_find_entry_none(v.entries, k1);
            let n = v.entries.len() as int;
            assert forall|j: int| 0 <= j < n implies keys_shape(#[trigger] v1.entries[j].0) != keys_shape(k2) by {
                assert(v1.entries[j] == v.entries[j]);
            }
            lemma_find_entry(v1.entries, k2, n);
        },
    }
}

proof fn lemma_find_entry_some(entries: Seq<(KeysV, usize, Seq<KeyPathV>)>, k: KeysV)
    requires
        find_entry(entries, k) is Some,
    ensures
        0 <= find_entry(entries, k)->0 < entries.len(),
        keys_shape(entries[find_entry(entries, k)->0].0) == keys_shape(k),
        forall|j: int| 0 <= j < find_entry(entries, k)->0 ==> keys_shape(#[trigger] entries[j].0) != keys_shape(k),
    decreases entries.len(),
{
    if entries.len() > 0 {
        match find_entry(entries.drop_last(), k) {
            Some(i) => {
                lemma_find_entry_some(entries.drop_last(), k);
                assert forall|j: int| 0 <= j < i implies keys_shape(#[trigger] entries[j].0) != keys_shape(k) by {
                    assert(entries.drop_last()[j] == entries[j]);
                }
                assert(entries.drop_last()[i] == entries[i]);
            },
            None => {
                lemma_find_entry_none(entries.drop_last(), k);
                assert forall|j: int| 0 <= j < entries.len() - 1 implies keys_shape(#[trigger] entries[j].0) != keys_shape(k) by {
                    assert(entries.drop_last()[j] == entries[j]);
                }
            },
        }
    }
}

proof fn lemma_find_entry_none(entries: Seq<(KeysV, usize, Seq<KeyPathV>)>, k: KeysV)
    requires
        find_entry(entries, k) is None,
    ensures
        forall|j: int| 0 <= j < entries.len() ==> keys_shape(#[trigger] entries[j].0) != keys_shape(k),
    decreases entries.len(),
{
    if entries.len() > 0 {
        lemma_find_entry_none(entries.drop_last(), k);
        assert forall|j: int| 0 <= j < entries.len() implies keys_shape(#[trigger] entries[j].0) != keys_shape(k) by {
            if j < entries.len() - 1 {
                assert(entries.drop_last()[j] == entries[j]);
            }
        }
    }
}

} // verus!
