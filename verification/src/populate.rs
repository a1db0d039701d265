//! Filling a value with the arguments of a foreign key: variables named by
//! an argument take its value, and a plural with a `count` argument becomes
//! the form the count selects.

use vstd::prelude::*;
use crate::error::{ErrV, Error};
use crate::key::{Key, KeyPath, KeyPathV};
use crate::plural_rules::{RulesFailure, RulesFailureV, category_for, category_for_decimal, plural_category, plural_category_decimal, rules_failure, rules_for};
use crate::plurals::PluralForm;
use crate::text::{ends_with, find, has_suffix, spec_find, spec_strip_suffix, spec_trim, str_eq, strip_suffix, trim, to_owned};
use crate::value::{lemma_view_forms_len, Literal, LiteralV, ParsedValue, Plurals, PluralsV, ValueV, lemma_view_args_len, lemma_view_values_len, view_args, view_forms, view_value, view_values};

verus! {

/// The value of the first argument named `k`.
pub open spec fn first_arg(args: Seq<(Seq<char>, ValueV)>, k: Seq<char>) -> Option<ValueV>
    decreases args.len(),
{
    if args.len() == 0 {
        None
    } else if args[0].0 == k {
        Some(args[0].1)
    } else {
        first_arg(args.drop_first(), k)
    }
}

/// The index of the first form `f`.
pub open spec fn form_index(fs: Seq<(PluralForm, ValueV)>, f: PluralForm) -> Option<int>
    decreases fs.len(),
{
    if fs.len() == 0 {
        None
    } else if fs[0].0 == f {
        Some(0)
    } else {
        match form_index(fs.drop_first(), f) {
            Some(i) => Some(i + 1),
            None => None,
        }
    }
}

/// A string literal of whitespace only.
pub open spec fn is_blank(v: ValueV) -> bool {
    v matches ValueV::Literal(LiteralV::String(s, _)) && spec_trim(s).len() == 0
}

pub open spec fn all_blank_from(vs: Seq<ValueV>, i: int) -> bool
    decreases vs.len() - i,
{
    if i >= vs.len() {
        true
    } else {
        is_blank(vs[i]) && all_blank_from(vs, i + 1)
    }
}

/// The variable that a bloc used as a count stands for: the bloc must be
/// one variable between blank strings.
pub open spec fn spec_find_variable(vs: Seq<ValueV>, i: int) -> Option<Seq<char>>
    decreases vs.len() - i,
{
    if i >= vs.len() {
        None
    } else if is_blank(vs[i]) {
        spec_find_variable(vs, i + 1)
    } else {
        match vs[i] {
            ValueV::Variable(k, _) => if all_blank_from(vs, i + 1) {
                Some(k)
            } else {
                None
            },
            _ => None,
        }
    }
}

/// The context of a population: the foreign key, its locale, and the key
/// where it is used.
pub struct PopCtx {
    pub fk: KeyPathV,
    pub locale: Seq<char>,
    pub kp: KeyPathV,
}

pub open spec fn count_error(c: PopCtx) -> ErrV {
    ErrV::InvalidCountArg { locale: c.locale, key_path: c.kp, foreign_key: c.fk }
}

pub open spec fn rules_error(c: PopCtx, f: RulesFailureV) -> ErrV {
    match f {
        RulesFailureV::InvalidLocale(t) => ErrV::InvalidLocale { locale: c.locale, err: t },
        RulesFailureV::NoRules(t) => ErrV::PluralRulesError(t),
    }
}

/// A value filled with the arguments (see the module documentation); the
/// first error met, in reading order, fails it.
pub open spec fn spec_populate(v: ValueV, args: Seq<(Seq<char>, ValueV)>, c: PopCtx) -> Result<ValueV, ErrV>
    decreases v, 1nat,
{
    match v {
        ValueV::Variable(key, _) => match first_arg(args, key) {
            Some(a) => Ok(a),
            None => Ok(v),
        },
        ValueV::Component(k, inner, attrs) => match inner {
            Some(b) => match spec_populate(*b, args, c) {
                Ok(x) => Ok(ValueV::Component(k, Some(Box::new(x)), attrs)),
                Err(e) => Err(e),
            },
            None => Ok(v),
        },
        ValueV::Bloc(vs) => match populate_seq(vs, args, c) {
            Ok(ws) => Ok(ValueV::Bloc(ws)),
            Err(e) => Err(e),
        },
        ValueV::Plurals(p) => match first_arg(args, "var_count"@) {
            Some(count) => populate_with_count(p, count, args, c),
            None => with_new_key(p, p.count_key, args, c),
        },
        ValueV::Subkeys(_) => Err(ErrV::InvalidForeignKey { foreign_key: c.fk, locale: c.locale, key_path: c.kp }),
        _ => Ok(v),
    }
}

pub open spec fn populate_seq(vs: Seq<ValueV>, args: Seq<(Seq<char>, ValueV)>, c: PopCtx) -> Result<Seq<ValueV>, ErrV>
    decreases vs, 1nat,
{
    if vs.len() == 0 {
        Ok(Seq::empty())
    } else {
        match populate_seq(vs.drop_last(), args, c) {
            Err(e) => Err(e),
            Ok(ws) => match spec_populate(vs.last(), args, c) {
                Ok(w) => Ok(ws.push(w)),
                Err(e) => Err(e),
            },
        }
    }
}

pub open spec fn populate_forms(fs: Seq<(PluralForm, ValueV)>, args: Seq<(Seq<char>, ValueV)>, c: PopCtx) -> Result<
    Seq<(PluralForm, ValueV)>,
    ErrV,
>
    decreases fs, 1nat,
{
    if fs.len() == 0 {
        Ok(Seq::empty())
    } else {
        match populate_forms(fs.drop_last(), args, c) {
            Err(e) => Err(e),
            Ok(ws) => match spec_populate(fs.last().1, args, c) {
                Ok(w) => Ok(ws.push((fs.last().0, w))),
                Err(e) => Err(e),
            },
        }
    }
}

/// The plural filled, its count variable renamed `k`.
pub open spec fn with_new_key(p: PluralsV, k: Seq<char>, args: Seq<(Seq<char>, ValueV)>, c: PopCtx) -> Result<ValueV, ErrV>
    decreases p, 0nat,
{
    match spec_populate(*p.other, args, c) {
        Err(e) => Err(e),
        Ok(o) => match populate_forms(p.forms, args, c) {
            Err(e) => Err(e),
            Ok(fs) => Ok(
                ValueV::Plurals(PluralsV { rule_type: p.rule_type, count_key: k, other: Box::new(o), forms: fs }),
            ),
        },
    }
}

/// The form of a plural selected by a category, filled: the category's
/// form, or `other` where it has none.
pub open spec fn select_form(p: PluralsV, cat: PluralForm, args: Seq<(Seq<char>, ValueV)>, c: PopCtx) -> Result<ValueV, ErrV>
    decreases p, 0nat,
{
    if cat == PluralForm::Other {
        spec_populate(*p.other, args, c)
    } else {
        match form_index(p.forms, cat) {
            Some(i) => if 0 <= i < p.forms.len() {
                spec_populate(p.forms[i].1, args, c)
            } else {
                spec_populate(*p.other, args, c)
            },
            None => spec_populate(*p.other, args, c),
        }
    }
}

/// The magnitude of a signed count, as plural rules read it.
pub open spec fn abs_u64(n: i64) -> u64 {
    if n < 0 {
        (-(n as int)) as u64
    } else {
        n as u64
    }
}

/// The text without its trailing zeros.
pub open spec fn drop_zeros(s: Seq<char>) -> Seq<char>
    decreases s.len(),
{
    if s.len() > 0 && s.last() == '0' {
        drop_zeros(s.drop_last())
    } else {
        s
    }
}

/// The shortest writing of a decimal number: trailing zeros of its
/// fraction dropped, and its point when no digit follows it.
pub open spec fn shortest_text(t: Seq<char>) -> Seq<char> {
    if spec_find(t, "."@) is Some && spec_find(t, "e"@) is None && spec_find(t, "E"@) is None {
        let u = drop_zeros(t);
        if u.len() > 0 && u.last() == '.' {
            u.drop_last()
        } else {
            u
        }
    } else {
        t
    }
}

/// The shortest writing of a decimal number (see `shortest_text`).
fn shortest_float_text(t: &str) -> (res: &str)
    ensures
        res@ == shortest_text(t@),
{
    proof {
        reveal_strlit("0");
        reveal_strlit(".");
        assert("0"@.len() == 1 && "0"@[0] == '0');
        assert("."@.len() == 1 && "."@[0] == '.');
    }
    if find(t, ".").is_some() && find(t, "e").is_none() && find(t, "E").is_none() {
        let mut u = t;
        while has_suffix(u, "0")
            invariant
                drop_zeros(u@) == drop_zeros(t@),
                spec_find(t@, "."@) is Some && spec_find(t@, "e"@) is None && spec_find(t@, "E"@) is None,
            decreases u@.len(),
        {
            proof {
                reveal_strlit("0");
                assert("0"@.len() == 1 && "0"@[0] == '0');
                assert(u@.skip(u@.len() - 1) =~= seq![u@.last()]);
                assert(u@.last() == '0');
                assert(u@.take(u@.len() - 1) =~= u@.drop_last());
            }
            let v = strip_suffix(u, "0").unwrap();
            u = v;
        }
        proof {
            reveal_strlit("0");
            assert("0"@.len() == 1 && "0"@[0] == '0');
            if u@.len() > 0 {
                assert(u@.skip(u@.len() - 1) =~= seq![u@.last()]);
                if u@.last() == '0' {
                    assert(u@.skip(u@.len() - 1) =~= "0"@);
                }
            }
            assert(drop_zeros(u@) == u@);
        }
        match strip_suffix(u, ".") {
            Some(v) => {
                proof {
                    assert(u@.skip(u@.len() - 1) =~= seq![u@.last()]);
                    assert(u@.take(u@.len() - 1) =~= u@.drop_last());
                }
                v
            },
            None => {
                proof {
                    if u@.len() > 0 && u@.last() == '.' {
                        assert(u@.skip(u@.len() - 1) =~= "."@);
                    }
                }
                u
            },
        }
    } else {
        t
    }
}

/// A plural with a `count` argument: a number selects its form through the
/// locale's plural rules; a variable (alone, or between blank strings)
/// becomes the count variable; anything else is an error.
pub open spec fn populate_with_count(p: PluralsV, count: ValueV, args: Seq<(Seq<char>, ValueV)>, c: PopCtx) -> Result<
    ValueV,
    ErrV,
>
    decreases p, 1nat,
{
    match count {
        ValueV::Literal(LiteralV::Float(t)) => match rules_failure(c.locale, p.rule_type) {
            Some(f) => Err(rules_error(c, f)),
            None => match plural_category_decimal(c.locale, p.rule_type, shortest_text(t)) {
                Some(cat) => select_form(p, cat, args, c),
                None => Err(count_error(c)),
            },
        },
        ValueV::Literal(LiteralV::Unsigned(n)) => match rules_failure(c.locale, p.rule_type) {
            Some(f) => Err(rules_error(c, f)),
            None => select_form(p, plural_category(c.locale, p.rule_type, n), args, c),
        },
        ValueV::Literal(LiteralV::Signed(n)) => match rules_failure(c.locale, p.rule_type) {
            Some(f) => Err(rules_error(c, f)),
            None => select_form(p, plural_category(c.locale, p.rule_type, abs_u64(n)), args, c),
        },
        ValueV::Bloc(vs) => match spec_find_variable(vs, 0) {
            Some(k) => with_new_key(p, k, args, c),
            None => Err(count_error(c)),
        },
        ValueV::Variable(k, _) => with_new_key(p, k, args, c),
        _ => Err(count_error(c)),
    }
}

/// A result matches its view.
pub open spec fn pop_matches(r: Result<ParsedValue, Error>, s: Result<ValueV, ErrV>) -> bool {
    match (r, s) {
        (Ok(a), Ok(b)) => a@ == b,
        (Err(a), Err(b)) => a@ == b,
        _ => false,
    }
}

pub open spec fn ctx_of(fk: &KeyPath, locale: &Key, key_path: &KeyPath) -> PopCtx {
    PopCtx { fk: fk@, locale: locale@, kp: key_path@ }
}

fn find_arg(args: &Vec<(String, ParsedValue)>, k: &str) -> (res: Option<usize>)
    ensures
        match res {
            Some(i) => i < args@.len() && first_arg(view_args(args@), k@) == Some(view_value(args@[i as int].1)),
            None => first_arg(view_args(args@), k@) is None,
        },
{
    let ghost av = view_args(args@);
    proof {
        lemma_view_args_len(args@);
    }
    let mut i: usize = 0;
    assert(av.skip(0) =~= av);
    while i < args.len()
        invariant
            av == view_args(args@),
            av.len() == args@.len(),
            forall|j: int| 0 <= j < args@.len() ==> #[trigger] av[j] == (args@[j].0@, view_value(args@[j].1)),
            i <= args@.len(),
            first_arg(av, k@) == first_arg(av.skip(i as int), k@),
        decreases args@.len() - i,
    {
        assert(av.skip(i as int)[0] == av[i as int]);
        assert(av.skip(i as int).drop_first() =~= av.skip(i + 1));
        if str_eq(args[i].0.as_str(), k) {
            return Some(i);
        }
        i = i + 1;
    }
    None
}

fn find_form(fs: &Vec<(PluralForm, ParsedValue)>, f: PluralForm) -> (res: Option<usize>)
    ensures
        match res {
            Some(i) => i < fs@.len() && form_index(view_forms(fs@), f) == Some(i as int),
            None => form_index(view_forms(fs@), f) is None,
        },
{
    let ghost fv = view_forms(fs@);
    proof {
        lemma_view_forms_len(fs@);
    }
    let mut i: usize = 0;
    while i < fs.len()
        invariant
            fv == view_forms(fs@),
            fv.len() == fs@.len(),
            forall|j: int| 0 <= j < fs@.len() ==> #[trigger] fv[j] == (fs@[j].0, view_value(fs@[j].1)),
            i <= fs@.len(),
            forall|j: int| 0 <= j < i ==> fv[j].0 != f,
        decreases fs@.len() - i,
    {
        if fs[i].0 == f {
            proof {
                lemma_form_index_at(fv, f, i as int);
            }
            return Some(i);
        }
        i = i + 1;
    }
    proof {
        lemma_form_index_none(fv, f);
    }
    None
}

proof fn lemma_form_index_at(fs: Seq<(PluralForm, ValueV)>, f: PluralForm, i: int)
    requires
        0 <= i < fs.len(),
        fs[i].0 == f,
        forall|j: int| 0 <= j < i ==> fs[j].0 != f,
    ensures
        form_index(fs, f) == Some(i),
    decreases i,
{
    if i > 0 {
        assert forall|j: int| 0 <= j < i - 1 implies fs.drop_first()[j].0 != f by {
            assert(fs.drop_first()[j] == fs[j + 1]);
        }
        lemma_form_index_at(fs.drop_first(), f, i - 1);
    }
}

proof fn lemma_form_index_none(fs: Seq<(PluralForm, ValueV)>, f: PluralForm)
    requires
        forall|j: int| 0 <= j < fs.len() ==> fs[j].0 != f,
    ensures
        form_index(fs, f) is None,
    decreases fs.len(),
{
    if fs.len() > 0 {
        assert forall|j: int| 0 <= j < fs.len() - 1 implies fs.drop_first()[j].0 != f by {
            assert(fs.drop_first()[j] == fs[j + 1]);
        }
        lemma_form_index_none(fs.drop_first(), f);
    }
}

fn is_blank_exec(v: &ParsedValue) -> (res: bool)
    ensures
        res == is_blank(v@),
{
    match v {
        ParsedValue::Literal(Literal::String(s, _)) => trim(s.as_str()).unicode_len() == 0,
        _ => false,
    }
}

/// The variable that a bloc used as a count stands for (see
/// `spec_find_variable`).
pub fn find_variable(values: &Vec<ParsedValue>) -> (res: Option<Key>)
    ensures
        match res {
            Some(k) => spec_find_variable(view_values(values@), 0) == Some(k@),
            None => spec_find_variable(view_values(values@), 0) is None,
        },
{
    let ghost vv = view_values(values@);
    proof {
        lemma_view_values_len(values@);
    }
    let n = values.len();
    let mut i: usize = 0;
    while i < n && is_blank_exec(&values[i])
        invariant
            vv == view_values(values@),
            vv.len() == n,
            n == values@.len(),
            forall|j: int| 0 <= j < n ==> #[trigger] vv[j] == view_value(values@[j]),
            i <= n,
            spec_find_variable(vv, 0) == spec_find_variable(vv, i as int),
        decreases n - i,
    {
        i = i + 1;
    }
    if i >= n {
        return None;
    }
    assert(!is_blank(vv[i as int]));
    match &values[i] {
        ParsedValue::Variable { key, formatter: _ } => {
            assert(vv[i as int] is Variable && vv[i as int]->Variable_0 == key@);
            assert(spec_find_variable(vv, 0) == if all_blank_from(vv, i + 1) {
                Some(key@)
            } else {
                None
            });
            let mut j = i + 1;
            while j < n
                invariant
                    vv == view_values(values@),
                    vv.len() == n,
                    n == values@.len(),
                    forall|m: int| 0 <= m < n ==> #[trigger] vv[m] == view_value(values@[m]),
                    i < j <= n,
                    all_blank_from(vv, i + 1) == all_blank_from(vv, j as int),
                    spec_find_variable(vv, 0) == if all_blank_from(vv, i + 1) {
                        Some(key@)
                    } else {
                        None
                    },
                decreases n - j,
            {
                if !is_blank_exec(&values[j]) {
                    assert(!all_blank_from(vv, j as int));
                    return None;
                }
                j = j + 1;
            }
            assert(all_blank_from(vv, j as int));
            Some(key.copy())
        },
        _ => None,
    }
}

fn rules_failure_error(f: RulesFailure, locale: &Key) -> (res: Error)
    ensures
        res@ == rules_error(PopCtx { fk: arbitrary_kp(), locale: locale@, kp: arbitrary_kp() }, f@),
{
    match f {
        RulesFailure::InvalidLocale(t) => Error::InvalidLocale { locale: to_owned(locale.name.as_str()), err: t },
        RulesFailure::NoRules(t) => Error::PluralRulesError(t),
    }
}

pub open spec fn arbitrary_kp() -> KeyPathV {
    KeyPathV { namespace: None, path: Seq::empty() }
}

fn abs_count(n: i64) -> (res: u64)
    ensures
        res == abs_u64(n),
{
    if n < 0 {
        ((-(n + 1)) as u64) + 1
    } else {
        n as u64
    }
}

impl ParsedValue {
    /// The value filled with the arguments of a foreign key (see
    /// `spec_populate`): `foreign_key` is the key it was reached through,
    /// `locale` its locale, `key_path` the key that uses it.
    pub fn populate(
        &self,
        args: &Vec<(String, ParsedValue)>,
        foreign_key: &KeyPath,
        locale: &Key,
        key_path: &KeyPath,
    ) -> (res: Result<ParsedValue, Error>)
        ensures
            pop_matches(res, spec_populate(self@, view_args(args@), ctx_of(foreign_key, locale, key_path))),
        decreases self, 3nat,
    {
        let ghost c = ctx_of(foreign_key, locale, key_path);
        match self {
            ParsedValue::Variable { key, formatter } => match find_arg(args, key.name.as_str()) {
                Some(i) => Ok(args[i].1.copy()),
                None => Ok(ParsedValue::Variable { key: key.copy(), formatter: *formatter }),
            },
            ParsedValue::Component { key, inner, attributes } => match inner {
                Some(b) => {
                    proof {
                        assert(decreases_to!(*self => (*self)->Component_inner));
                        assert(decreases_to!((*self)->Component_inner => (*self)->Component_inner->Some_0));
                    }
                    match b.populate(args, foreign_key, locale, key_path) {
                        Ok(x) => Ok(ParsedValue::Component { key: key.copy(), inner: Some(Box::new(x)), attributes: self.copy_attributes() }),
                        Err(e) => Err(e),
                    }
                },
                None => Ok(self.copy()),
            },
            ParsedValue::Bloc(vs) => match populate_bloc(vs, args, foreign_key, locale, key_path, Ghost(*self)) {
                Ok(ws) => Ok(ParsedValue::Bloc(ws)),
                Err(e) => Err(e),
            },
            ParsedValue::Plurals(p) => populate_plurals(p, args, foreign_key, locale, key_path, Ghost(*self)),
            ParsedValue::Subkeys(_) => Err(
                Error::InvalidForeignKey { foreign_key: foreign_key.copy(), locale: locale.copy(), key_path: key_path.copy() },
            ),
            _ => Ok(self.copy()),
        }
    }

    fn copy_attributes(&self) -> (res: Vec<crate::value::Attribute>)
        requires
            self is Component,
        ensures
            crate::value::attrs_view(res@) == crate::value::attrs_view(self->Component_attributes@),
    {
        match self.copy() {
            ParsedValue::Component { attributes, .. } => attributes,
            _ => Vec::new(),
        }
    }
}

fn populate_bloc(
    vs: &Vec<ParsedValue>,
    args: &Vec<(String, ParsedValue)>,
    foreign_key: &KeyPath,
    locale: &Key,
    key_path: &KeyPath,
    Ghost(parent): Ghost<ParsedValue>,
) -> (res: Result<Vec<ParsedValue>, Error>)
    requires
        parent == ParsedValue::Bloc(*vs),
    ensures
        match (res, populate_seq(view_values(vs@), view_args(args@), ctx_of(foreign_key, locale, key_path))) {
            (Ok(a), Ok(b)) => view_values(a@) == b,
            (Err(a), Err(b)) => a@ == b,
            _ => false,
        },
    decreases parent, 0nat,
{
    let ghost c = ctx_of(foreign_key, locale, key_path);
    let ghost vv = view_values(vs@);
    let ghost av = view_args(args@);
    proof {
        lemma_view_values_len(vs@);
    }
    let mut out: Vec<ParsedValue> = Vec::new();
    let mut i: usize = 0;
    assert(vv.take(0) =~= Seq::<ValueV>::empty());
    assert(view_values(out@) =~= Seq::<ValueV>::empty());
    while i < vs.len()
        invariant
            parent == ParsedValue::Bloc(*vs),
            vv == view_values(vs@),
            vv.len() == vs@.len(),
            av == view_args(args@),
            c == ctx_of(foreign_key, locale, key_path),
            forall|j: int| 0 <= j < vs@.len() ==> #[trigger] vv[j] == view_value(vs@[j]),
            i <= vs@.len(),
            populate_seq(vv.take(i as int), av, c) == Ok::<Seq<ValueV>, ErrV>(view_values(out@)),
        decreases vs@.len() - i,
    {
        proof {
            assert(decreases_to!(parent => parent->Bloc_0));
            assert(decreases_to!(parent->Bloc_0 => parent->Bloc_0@));
            assert(decreases_to!(parent->Bloc_0@ => parent->Bloc_0@[i as int]));
            assert(vv.take(i + 1).drop_last() =~= vv.take(i as int));
            assert(vv.take(i + 1).last() == vv[i as int]);
        }
        match vs[i].populate(args, foreign_key, locale, key_path) {
            Ok(w) => {
                let ghost before = out@;
                out.push(w);
                proof {
                    assert(out@.drop_last() =~= before);
                }
            },
            Err(e) => {
                proof {
                    lemma_populate_seq_err(vv, av, c, i as int + 1);
                }
                return Err(e);
            },
        }
        i = i + 1;
    }
    assert(vv.take(i as int) =~= vv);
    Ok(out)
}

proof fn lemma_populate_seq_err(vs: Seq<ValueV>, args: Seq<(Seq<char>, ValueV)>, c: PopCtx, k: int)
    requires
        1 <= k <= vs.len(),
        populate_seq(vs.take(k), args, c) is Err,
    ensures
        populate_seq(vs, args, c) == populate_seq(vs.take(k), args, c),
    decreases vs.len() - k,
{
    if k < vs.len() {
        assert(vs.take(k + 1).drop_last() =~= vs.take(k));
        lemma_populate_seq_err(vs, args, c, k + 1);
    } else {
        assert(vs.take(k) =~= vs);
    }
}

proof fn lemma_populate_forms_err(fs: Seq<(PluralForm, ValueV)>, args: Seq<(Seq<char>, ValueV)>, c: PopCtx, k: int)
    requires
        1 <= k <= fs.len(),
        populate_forms(fs.take(k), args, c) is Err,
    ensures
        populate_forms(fs, args, c) == populate_forms(fs.take(k), args, c),
    decreases fs.len() - k,
{
    if k < fs.len() {
        assert(fs.take(k + 1).drop_last() =~= fs.take(k));
        lemma_populate_forms_err(fs, args, c, k + 1);
    } else {
        assert(fs.take(k) =~= fs);
    }
}

fn populate_forms_exec(
    fs: &Vec<(PluralForm, ParsedValue)>,
    args: &Vec<(String, ParsedValue)>,
    foreign_key: &KeyPath,
    locale: &Key,
    key_path: &KeyPath,
    Ghost(parent): Ghost<ParsedValue>,
) -> (res: Result<Vec<(PluralForm, ParsedValue)>, Error>)
    requires
        parent matches ParsedValue::Plurals(p) && p.forms == *fs,
    ensures
        match (res, populate_forms(view_forms(fs@), view_args(args@), ctx_of(foreign_key, locale, key_path))) {
            (Ok(a), Ok(b)) => view_forms(a@) == b,
            (Err(a), Err(b)) => a@ == b,
            _ => false,
        },
    decreases parent, 0nat,
{
    let ghost c = ctx_of(foreign_key, locale, key_path);
    let ghost fv = view_forms(fs@);
    let ghost av = view_args(args@);
    proof {
        lemma_view_forms_len(fs@);
    }
    let mut out: Vec<(PluralForm, ParsedValue)> = Vec::new();
    let mut i: usize = 0;
    assert(fv.take(0) =~= Seq::<(PluralForm, ValueV)>::empty());
    assert(view_forms(out@) =~= Seq::<(PluralForm, ValueV)>::empty());
    while i < fs.len()
        invariant
            parent matches ParsedValue::Plurals(p) && p.forms == *fs,
            fv == view_forms(fs@),
            fv.len() == fs@.len(),
            av == view_args(args@),
            c == ctx_of(foreign_key, locale, key_path),
            forall|j: int| 0 <= j < fs@.len() ==> #[trigger] fv[j] == (fs@[j].0, view_value(fs@[j].1)),
            i <= fs@.len(),
            populate_forms(fv.take(i as int), av, c) == Ok::<Seq<(PluralForm, ValueV)>, ErrV>(view_forms(out@)),
        decreases fs@.len() - i,
    {
        proof {
            assert(decreases_to!(parent => parent->Plurals_0));
            assert(decreases_to!(parent->Plurals_0 => parent->Plurals_0.forms));
            assert(decreases_to!(parent->Plurals_0.forms => parent->Plurals_0.forms@));
            assert(decreases_to!(parent->Plurals_0.forms@ => parent->Plurals_0.forms@[i as int]));
            assert(decreases_to!(parent->Plurals_0.forms@[i as int] => parent->Plurals_0.forms@[i as int].1));
            assert(fv.take(i + 1).drop_last() =~= fv.take(i as int));
            assert(fv.take(i + 1).last() == fv[i as int]);
        }
        match fs[i].1.populate(args, foreign_key, locale, key_path) {
            Ok(w) => {
                let ghost before = out@;
                out.push((fs[i].0, w));
                proof {
                    assert(out@.drop_last() =~= before);
                }
            },
            Err(e) => {
                proof {
                    lemma_populate_forms_err(fv, av, c, i as int + 1);
                }
                return Err(e);
            },
        }
        i = i + 1;
    }
    assert(fv.take(i as int) =~= fv);
    Ok(out)
}

pub open spec fn plurals_view(p: Plurals) -> PluralsV {
    PluralsV {
        rule_type: p.rule_type,
        count_key: p.count_key@,
        other: Box::new(view_value(*p.other)),
        forms: view_forms(p.forms@),
    }
}

fn with_new_key_exec(
    p: &Plurals,
    k: Key,
    args: &Vec<(String, ParsedValue)>,
    foreign_key: &KeyPath,
    locale: &Key,
    key_path: &KeyPath,
    Ghost(parent): Ghost<ParsedValue>,
) -> (res: Result<ParsedValue, Error>)
    requires
        parent == ParsedValue::Plurals(*p),
    ensures
        pop_matches(res, with_new_key(plurals_view(*p), k@, view_args(args@), ctx_of(foreign_key, locale, key_path))),
    decreases parent, 1nat,
{
    proof {
        assert(decreases_to!(parent => parent->Plurals_0));
        assert(decreases_to!(parent->Plurals_0 => parent->Plurals_0.other));
    }
    let other = match p.other.populate(args, foreign_key, locale, key_path) {
        Ok(o) => o,
        Err(e) => return Err(e),
    };
    let forms = match populate_forms_exec(&p.forms, args, foreign_key, locale, key_path, Ghost(parent)) {
        Ok(f) => f,
        Err(e) => return Err(e),
    };
    Ok(ParsedValue::Plurals(Plurals { rule_type: p.rule_type, count_key: k, other: Box::new(other), forms }))
}

fn select_form_exec(
    p: &Plurals,
    cat: PluralForm,
    args: &Vec<(String, ParsedValue)>,
    foreign_key: &KeyPath,
    locale: &Key,
    key_path: &KeyPath,
    Ghost(parent): Ghost<ParsedValue>,
) -> (res: Result<ParsedValue, Error>)
    requires
        parent == ParsedValue::Plurals(*p),
    ensures
        pop_matches(res, select_form(plurals_view(*p), cat, view_args(args@), ctx_of(foreign_key, locale, key_path))),
    decreases parent, 1nat,
{
    proof {
        assert(decreases_to!(parent => parent->Plurals_0));
        assert(decreases_to!(parent->Plurals_0 => parent->Plurals_0.other));
        lemma_view_forms_len(p.forms@);
    }
    let is_other = match cat {
        PluralForm::Other => true,
        _ => false,
    };
    if is_other {
        return p.other.populate(args, foreign_key, locale, key_path);
    }
    match find_form(&p.forms, cat) {
        Some(i) => {
            proof {
                assert(decreases_to!(parent->Plurals_0 => parent->Plurals_0.forms));
                assert(decreases_to!(parent->Plurals_0.forms => parent->Plurals_0.forms@));
                assert(decreases_to!(parent->Plurals_0.forms@ => parent->Plurals_0.forms@[i as int]));
                assert(decreases_to!(parent->Plurals_0.forms@[i as int] => parent->Plurals_0.forms@[i as int].1));
            }
            p.forms[i].1.populate(args, foreign_key, locale, key_path)
        },
        None => p.other.populate(args, foreign_key, locale, key_path),
    }
}

fn populate_plurals(
    p: &Plurals,
    args: &Vec<(String, ParsedValue)>,
    foreign_key: &KeyPath,
    locale: &Key,
    key_path: &KeyPath,
    Ghost(parent): Ghost<ParsedValue>,
) -> (res: Result<ParsedValue, Error>)
    requires
        parent == ParsedValue::Plurals(*p),
    ensures
        pop_matches(res, spec_populate(parent@, view_args(args@), ctx_of(foreign_key, locale, key_path))),
    decreases parent, 2nat,
{
    let ghost c = ctx_of(foreign_key, locale, key_path);
    let ghost pv = plurals_view(*p);
    let ghost av = view_args(args@);
    assert(parent@ == ValueV::Plurals(pv));
    let count = match find_arg(args, "var_count") {
        None => return with_new_key_exec(p, p.count_key.copy(), args, foreign_key, locale, key_path, Ghost(parent)),
        Some(i) => &args[i].1,
    };
    assert(spec_populate(parent@, av, c) == populate_with_count(pv, view_value(*count), av, c));
    let count_error_value = Error::InvalidCountArg {
        locale: locale.copy(),
        key_path: key_path.copy(),
        foreign_key: foreign_key.copy(),
    };
    assert(count_error_value@ == count_error(c));
    match count {
        ParsedValue::Literal(Literal::Float(t)) => match rules_for(locale.name.as_str(), p.rule_type) {
            Err(f) => Err(rules_failure_error(f, locale)),
            Ok(r) => match category_for_decimal(&r, shortest_float_text(t.as_str())) {
                Some(cat) => select_form_exec(p, cat, args, foreign_key, locale, key_path, Ghost(parent)),
                None => Err(count_error_value),
            },
        },
        ParsedValue::Literal(Literal::Unsigned(n)) => match rules_for(locale.name.as_str(), p.rule_type) {
            Err(f) => Err(rules_failure_error(f, locale)),
            Ok(r) => {
                let cat = category_for(&r, *n);
                select_form_exec(p, cat, args, foreign_key, locale, key_path, Ghost(parent))
            },
        },
        ParsedValue::Literal(Literal::Signed(n)) => match rules_for(locale.name.as_str(), p.rule_type) {
            Err(f) => Err(rules_failure_error(f, locale)),
            Ok(r) => {
                let cat = category_for(&r, abs_count(*n));
                select_form_exec(p, cat, args, foreign_key, locale, key_path, Ghost(parent))
            },
        },
        ParsedValue::Bloc(vs) => match find_variable(vs) {
            Some(k) => with_new_key_exec(p, k, args, foreign_key, locale, key_path, Ghost(parent)),
            None => Err(count_error_value),
        },
        ParsedValue::Variable { key, formatter: _ } => with_new_key_exec(
            p,
            key.copy(),
            args,
            foreign_key,
            locale,
            key_path,
            Ghost(parent),
        ),
        _ => Err(count_error_value),
    }
}

/// The value holds no nested keys anywhere (they only stand at the level
/// of a locale's keys).
pub open spec fn sub_free(v: ValueV) -> bool
    decreases v, 1nat,
{
    match v {
        ValueV::Subkeys(_) => false,
        ValueV::Component(_, Some(b), _) => sub_free(*b),
        ValueV::Bloc(vs) => sub_free_seq(vs),
        ValueV::Plurals(p) => sub_free(*p.other) && sub_free_forms(p.forms),
        _ => true,
    }
}

pub open spec fn sub_free_seq(vs: Seq<ValueV>) -> bool
    decreases vs, 1nat,
{
    if vs.len() == 0 {
        true
    } else {
        sub_free_seq(vs.drop_last()) && sub_free(vs.last())
    }
}

pub open spec fn sub_free_forms(fs: Seq<(PluralForm, ValueV)>) -> bool
    decreases fs, 1nat,
{
    if fs.len() == 0 {
        true
    } else {
        sub_free_forms(fs.drop_last()) && sub_free(fs.last().1)
    }
}

proof fn lemma_populate_no_args(v: ValueV, c: PopCtx)
    requires
        sub_free(v),
    ensures
        spec_populate(v, Seq::empty(), c) == Ok::<ValueV, ErrV>(v),
    decreases v, 1nat,
{
    match v {
        ValueV::Component(k, inner, attrs) => match inner {
            Some(b) => lemma_populate_no_args(*b, c),
            None => {},
        },
        ValueV::Bloc(vs) => lemma_populate_seq_no_args(vs, c),
        ValueV::Plurals(p) => {
            lemma_populate_no_args(*p.other, c);
            lemma_populate_forms_no_args(p.forms, c);
            assert(first_arg(Seq::empty(), "var_count"@) is None);
            assert(with_new_key(p, p.count_key, Seq::empty(), c) == Ok::<ValueV, ErrV>(v));
        },
        ValueV::Variable(key, _) => {
            assert(first_arg(Seq::empty(), key) is None);
        },
        _ => {},
    }
}

proof fn lemma_populate_seq_no_args(vs: Seq<ValueV>, c: PopCtx)
    requires
        sub_free_seq(vs),
    ensures
        populate_seq(vs, Seq::empty(), c) == Ok::<Seq<ValueV>, ErrV>(vs),
    decreases vs, 1nat,
{
    if vs.len() > 0 {
        lemma_populate_seq_no_args(vs.drop_last(), c);
        assert(decreases_to!(vs => vs[vs.len() - 1]));
        lemma_populate_no_args(vs.last(), c);
        assert(vs.drop_last().push(vs.last()) =~= vs);
    } else {
        assert(vs =~= Seq::<ValueV>::empty());
    }
}

proof fn lemma_populate_forms_no_args(fs: Seq<(PluralForm, ValueV)>, c: PopCtx)
    requires
        sub_free_forms(fs),
    ensures
        populate_forms(fs, Seq::empty(), c) == Ok::<Seq<(PluralForm, ValueV)>, ErrV>(fs),
    decreases fs, 1nat,
{
    if fs.len() > 0 {
        lemma_populate_forms_no_args(fs.drop_last(), c);
        assert(decreases_to!(fs => fs[fs.len() - 1]));
        assert(decreases_to!(fs[fs.len() - 1] => fs[fs.len() - 1].1));
        lemma_populate_no_args(fs.last().1, c);
        assert(fs.drop_last().push((fs.last().0, fs.last().1)) =~= fs);
    } else {
        assert(fs =~= Seq::<(PluralForm, ValueV)>::empty());
    }
}

/// Filling a value with no arguments changes nothing: its variables stay,
/// and its plurals keep their count variable (a value with nested keys is
/// no foreign key target: filling it is an error).
pub proof fn law_populate_without_arguments(v: ValueV, c: PopCtx)
    requires
        sub_free(v),
    ensures
        spec_populate(v, Seq::empty(), c) == Ok::<ValueV, ErrV>(v),
{
    lemma_populate_no_args(v, c);
}

/// Value `v` holds variable `n` where filling reads it: directly, inside a
/// component or inside a bloc.
pub open spec fn mentions(v: ValueV, n: Seq<char>) -> bool
    decreases v,
{
    match v {
        ValueV::Variable(k, _) => k == n,
        ValueV::Component(_, Some(x), _) => mentions(*x, n),
        ValueV::Bloc(vs) => mentions_seq(vs, n),
        _ => false,
    }
}

pub open spec fn mentions_seq(vs: Seq<ValueV>, n: Seq<char>) -> bool
    decreases vs,
{
    vs.len() > 0 && (mentions_seq(vs.drop_last(), n) || mentions(vs.last(), n))
}

/// A value made of literals, variables, components and blocs (no plural and
/// no nested keys where filling reads it).
pub open spec fn fill_plain(v: ValueV) -> bool
    decreases v,
{
    match v {
        ValueV::Component(_, Some(x), _) => fill_plain(*x),
        ValueV::Bloc(vs) => fill_plain_seq(vs),
        ValueV::Plurals(_) => false,
        ValueV::Subkeys(_) => false,
        _ => true,
    }
}

pub open spec fn fill_plain_seq(vs: Seq<ValueV>) -> bool
    decreases vs,
{
    vs.len() == 0 || (fill_plain_seq(vs.drop_last()) && fill_plain(vs.last()))
}

/// No argument's value holds a variable named by an argument.
pub open spec fn args_closed(args: Seq<(Seq<char>, ValueV)>) -> bool {
    forall|i: int, j: int| 0 <= i < args.len() && 0 <= j < args.len() ==> !mentions(#[trigger] args[i].1, #[trigger] args[j].0)
}

proof fn lemma_first_arg_at(args: Seq<(Seq<char>, ValueV)>, k: Seq<char>)
    ensures
        first_arg(args, k) matches Some(a) ==> exists|i: int| 0 <= i < args.len() && args[i].0 == k && args[i].1 == a,
        first_arg(args, k) is None ==> forall|i: int| 0 <= i < args.len() ==> args[i].0 != k,
    decreases args.len(),
{
    if args.len() > 0 && args[0].0 != k {
        lemma_first_arg_at(args.drop_first(), k);
        if let Some(a) = first_arg(args, k) {
            let i = choose|i: int|
                0 <= i < args.drop_first().len() && args.drop_first()[i].0 == k && args.drop_first()[i].1 == a;
            assert(args[i + 1] == args.drop_first()[i]);
        } else {
            assert forall|i: int| 0 <= i < args.len() implies args[i].0 != k by {
                if i > 0 {
                    assert(args[i] == args.drop_first()[i - 1]);
                }
            }
        }
    }
}

proof fn lemma_fill(v: ValueV, args: Seq<(Seq<char>, ValueV)>, c: PopCtx, n: Seq<char>)
    requires
        fill_plain(v),
        args_closed(args),
    ensures
        spec_populate(v, args, c) is Ok,
        (exists|j: int| 0 <= j < args.len() && args[j].0 == n) ==> !mentions(spec_populate(v, args, c)->Ok_0, n),
        mentions(v, n) && (forall|j: int| 0 <= j < args.len() ==> args[j].0 != n) ==> mentions(
            spec_populate(v, args, c)->Ok_0,
            n,
        ),
    decreases v, 1nat,
{
    match v {
        ValueV::Variable(k, _) => {
            lemma_first_arg_at(args, k);
            lemma_first_arg_at(args, n);
            if let Some(a) = first_arg(args, k) {
                let i = choose|i: int| 0 <= i < args.len() && args[i].0 == k && args[i].1 == a;
                if exists|j: int| 0 <= j < args.len() && args[j].0 == n {
                    let j = choose|j: int| 0 <= j < args.len() && args[j].0 == n;
                    assert(!mentions(args[i].1, args[j].0));
                }
            }
        },
        ValueV::Component(_, Some(x), _) => lemma_fill(*x, args, c, n),
        ValueV::Bloc(vs) => lemma_fill_seq(vs, args, c, n),
        _ => {},
    }
}

proof fn lemma_fill_seq(vs: Seq<ValueV>, args: Seq<(Seq<char>, ValueV)>, c: PopCtx, n: Seq<char>)
    requires
        fill_plain_seq(vs),
        args_closed(args),
    ensures
        populate_seq(vs, args, c) is Ok,
        (exists|j: int| 0 <= j < args.len() && args[j].0 == n) ==> !mentions_seq(populate_seq(vs, args, c)->Ok_0, n),
        mentions_seq(vs, n) && (forall|j: int| 0 <= j < args.len() ==> args[j].0 != n) ==> mentions_seq(
            populate_seq(vs, args, c)->Ok_0,
            n,
        ),
    decreases vs, 1nat,
{
    if vs.len() > 0 {
        lemma_fill_seq(vs.drop_last(), args, c, n);
        lemma_fill(vs.last(), args, c, n);
        let ws = populate_seq(vs.drop_last(), args, c)->Ok_0;
        let w = spec_populate(vs.last(), args, c)->Ok_0;
        assert(ws.push(w).drop_last() =~= ws);
        assert(ws.push(w).last() == w);
    } else {
        assert(populate_seq(vs, args, c)->Ok_0.len() == 0);
    }
}

/// Filling a value made of literals, variables, components and blocs never
/// fails, and replaces every variable named by an argument wherever it
/// stands, inside components and blocs included: when no argument's value
/// holds such a variable itself, none is left; a variable named by no
/// argument stays.
pub proof fn law_populate_fills_variables(v: ValueV, args: Seq<(Seq<char>, ValueV)>, c: PopCtx)
    requires
        fill_plain(v),
        args_closed(args),
    ensures
        spec_populate(v, args, c) is Ok,
        forall|j: int| 0 <= j < args.len() ==> !mentions(spec_populate(v, args, c)->Ok_0, #[trigger] args[j].0),
        forall|n: Seq<char>|
            mentions(v, n) && (forall|j: int| 0 <= j < args.len() ==> args[j].0 != n) ==> #[trigger] mentions(
                spec_populate(v, args, c)->Ok_0,
                n,
            ),
{
    lemma_fill(v, args, c, Seq::empty());
    assert forall|j: int| 0 <= j < args.len() implies !mentions(spec_populate(v, args, c)->Ok_0, #[trigger] args[j].0) by {
        lemma_fill(v, args, c, args[j].0);
    }
    assert forall|n: Seq<char>|
        mentions(v, n) && (forall|j: int| 0 <= j < args.len() ==> args[j].0 != n) implies #[trigger] mentions(
        spec_populate(v, args, c)->Ok_0,
        n,
    ) by {
        lemma_fill(v, args, c, n);
    }
}

proof fn lemma_fill_ok(v: ValueV, args: Seq<(Seq<char>, ValueV)>, c: PopCtx)
    requires
        fill_plain(v),
    ensures
        spec_populate(v, args, c) is Ok,
    decreases v, 1nat,
{
    match v {
        ValueV::Component(_, Some(x), _) => lemma_fill_ok(*x, args, c),
        ValueV::Bloc(vs) => lemma_fill_seq_ok(vs, args, c),
        _ => {},
    }
}

proof fn lemma_fill_seq_ok(vs: Seq<ValueV>, args: Seq<(Seq<char>, ValueV)>, c: PopCtx)
    requires
        fill_plain_seq(vs),
    ensures
        populate_seq(vs, args, c) is Ok,
        populate_seq(vs, args, c)->Ok_0.len() == vs.len(),
    decreases vs, 1nat,
{
    if vs.len() > 0 {
        lemma_fill_seq_ok(vs.drop_last(), args, c);
        lemma_fill_ok(vs.last(), args, c);
    }
}

/// Filling the pieces of two blocs put end to end gives the filled pieces
/// of the first followed by those of the second: each piece is filled on
/// its own, none is dropped, added or moved.
pub proof fn law_populate_pieces_concat(
    a: Seq<ValueV>,
    b: Seq<ValueV>,
    args: Seq<(Seq<char>, ValueV)>,
    c: PopCtx,
)
    requires
        fill_plain_seq(a),
        fill_plain_seq(b),
    ensures
        populate_seq(a, args, c) is Ok,
        populate_seq(b, args, c) is Ok,
        populate_seq(a + b, args, c) == Ok::<Seq<ValueV>, ErrV>(
            populate_seq(a, args, c)->Ok_0 + populate_seq(b, args, c)->Ok_0,
        ),
    decreases b.len(),
{
    lemma_fill_seq_ok(a, args, c);
    lemma_fill_seq_ok(b, args, c);
    if b.len() == 0 {
        assert(a + b =~= a);
        assert(populate_seq(a, args, c)->Ok_0 + populate_seq(b, args, c)->Ok_0 =~= populate_seq(a, args, c)->Ok_0);
    } else {
        let bi = b.drop_last();
        law_populate_pieces_concat(a, bi, args, c);
        assert((a + b).drop_last() =~= a + bi);
        assert((a + b).last() == b.last());
        lemma_fill_ok(b.last(), args, c);
        let x = populate_seq(a, args, c)->Ok_0;
        let y = populate_seq(bi, args, c)->Ok_0;
        let w = spec_populate(b.last(), args, c)->Ok_0;
        assert((x + y).push(w) =~= x + y.push(w));
    }
}

proof fn lemma_untouched(v: ValueV, args: Seq<(Seq<char>, ValueV)>, c: PopCtx)
    requires
        fill_plain(v),
        forall|j: int| 0 <= j < args.len() ==> !mentions(v, #[trigger] args[j].0),
    ensures
        spec_populate(v, args, c) == Ok::<ValueV, ErrV>(v),
    decreases v, 1nat,
{
    match v {
        ValueV::Variable(k, _) => {
            lemma_first_arg_at(args, k);
            if first_arg(args, k) is Some {
                let i = choose|i: int| 0 <= i < args.len() && args[i].0 == k && args[i].1 == first_arg(args, k)->0;
                assert(!mentions(v, args[i].0));
            }
        },
        ValueV::Component(_, Some(x), _) => {
            assert forall|j: int| 0 <= j < args.len() implies !mentions(*x, #[trigger] args[j].0) by {
                assert(!mentions(v, args[j].0));
            }
            lemma_untouched(*x, args, c);
        },
        ValueV::Bloc(vs) => {
            assert forall|j: int| 0 <= j < args.len() implies !mentions_seq(vs, #[trigger] args[j].0) by {
                assert(!mentions(v, args[j].0));
            }
            lemma_untouched_seq(vs, args, c);
        },
        _ => {},
    }
}

proof fn lemma_untouched_seq(vs: Seq<ValueV>, args: Seq<(Seq<char>, ValueV)>, c: PopCtx)
    requires
        fill_plain_seq(vs),
        forall|j: int| 0 <= j < args.len() ==> !mentions_seq(vs, #[trigger] args[j].0),
    ensures
        populate_seq(vs, args, c) == Ok::<Seq<ValueV>, ErrV>(vs),
    decreases vs, 1nat,
{
    if vs.len() > 0 {
        assert forall|j: int| 0 <= j < args.len() implies !mentions_seq(vs.drop_last(), #[trigger] args[j].0) by {
            assert(!mentions_seq(vs, args[j].0));
        }
        assert forall|j: int| 0 <= j < args.len() implies !mentions(vs.last(), #[trigger] args[j].0) by {
            assert(!mentions_seq(vs, args[j].0));
        }
        lemma_untouched_seq(vs.drop_last(), args, c);
        lemma_untouched(vs.last(), args, c);
        assert(vs.drop_last().push(vs.last()) =~= vs);
    } else {
        assert(vs =~= Seq::<ValueV>::empty());
    }
}

/// Arguments that name no variable of a value leave it as it is: literals,
/// components and blocs are kept whole.
pub proof fn law_populate_untouched(v: ValueV, args: Seq<(Seq<char>, ValueV)>, c: PopCtx)
    requires
        fill_plain(v),
        forall|j: int| 0 <= j < args.len() ==> !mentions(v, #[trigger] args[j].0),
    ensures
        spec_populate(v, args, c) == Ok::<ValueV, ErrV>(v),
{
    lemma_untouched(v, args, c);
}

proof fn lemma_form_index(fs: Seq<(PluralForm, ValueV)>, f: PluralForm)
    ensures
        form_index(fs, f) matches Some(i) ==> 0 <= i < fs.len() && fs[i].0 == f && forall|j: int|
            0 <= j < i ==> fs[j].0 != f,
        form_index(fs, f) is None ==> forall|j: int| 0 <= j < fs.len() ==> fs[j].0 != f,
    decreases fs.len(),
{
    if fs.len() > 0 && fs[0].0 != f {
        let t = fs.drop_first();
        lemma_form_index(t, f);
        assert forall|j: int| 0 < j < fs.len() implies fs[j] == t[j - 1] by {}
    }
}

/// An integer count argument selects a form of a plural: the result is the
/// first form given for the category that the locale's rules give the
/// count, filled with the arguments, or `other` filled when that category
/// is `other` or no form is given for it.
pub proof fn law_count_selects_form(p: PluralsV, n: u64, args: Seq<(Seq<char>, ValueV)>, c: PopCtx)
    requires
        rules_failure(c.locale, p.rule_type) is None,
        first_arg(args, "var_count"@) == Some(ValueV::Literal(LiteralV::Unsigned(n))),
    ensures
        ({
            let cat = plural_category(c.locale, p.rule_type, n);
            let r = spec_populate(ValueV::Plurals(p), args, c);
            &&& (cat == PluralForm::Other || forall|j: int| 0 <= j < p.forms.len() ==> p.forms[j].0 != cat) ==> r
                == spec_populate(*p.other, args, c)
            &&& forall|i: int|
                0 <= i < p.forms.len() && cat != PluralForm::Other && #[trigger] p.forms[i].0 == cat && (forall|j: int|
                    0 <= j < i ==> p.forms[j].0 != cat) ==> r == spec_populate(p.forms[i].1, args, c)
        }),
{
    let cat = plural_category(c.locale, p.rule_type, n);
    lemma_form_index(p.forms, cat);
    let count = ValueV::Literal(LiteralV::Unsigned(n));
    assert(spec_populate(ValueV::Plurals(p), args, c) == populate_with_count(p, count, args, c));
    assert(populate_with_count(p, count, args, c) == select_form(p, cat, args, c));
    assert forall|i: int|
        0 <= i < p.forms.len() && cat != PluralForm::Other && #[trigger] p.forms[i].0 == cat && (forall|j: int|
            0 <= j < i ==> p.forms[j].0 != cat) implies spec_populate(ValueV::Plurals(p), args, c) == spec_populate(
        p.forms[i].1,
        args,
        c,
    ) by {
        if let Some(k) = form_index(p.forms, cat) {
            if k < i {
                assert(p.forms[k].0 == cat);
            } else if k > i {
                assert(p.forms[i].0 != cat);
            }
        }
    }
}

proof fn lemma_populate_forms_shape(fs: Seq<(PluralForm, ValueV)>, args: Seq<(Seq<char>, ValueV)>, c: PopCtx)
    ensures
        populate_forms(fs, args, c) matches Ok(gs) ==> gs.len() == fs.len() && forall|i: int|
            0 <= i < fs.len() ==> (#[trigger] gs[i]).0 == fs[i].0,
    decreases fs.len(),
{
    if fs.len() > 0 {
        lemma_populate_forms_shape(fs.drop_last(), args, c);
        if let Ok(gs) = populate_forms(fs, args, c) {
            let hs = populate_forms(fs.drop_last(), args, c)->Ok_0;
            assert forall|i: int| 0 <= i < fs.len() implies (#[trigger] gs[i]).0 == fs[i].0 by {
                if i < fs.len() - 1 {
                    assert(gs[i] == hs[i]);
                    assert(fs[i] == fs.drop_last()[i]);
                }
            }
        }
    }
}

/// The plural `q` is `p` with its count variable named `k`: same rule type,
/// same forms in the same order.
pub open spec fn same_plural_shape(q: PluralsV, p: PluralsV, k: Seq<char>) -> bool {
    &&& q.rule_type == p.rule_type
    &&& q.count_key == k
    &&& q.forms.len() == p.forms.len()
    &&& forall|i: int| 0 <= i < p.forms.len() ==> (#[trigger] q.forms[i]).0 == p.forms[i].0
}

/// A plural filled without a count argument stays a plural of the same
/// rule type and forms, in the same order, with its own count variable; a
/// count argument that is a variable renames the count variable to it.
pub proof fn law_plural_without_count_stays_plural(p: PluralsV, args: Seq<(Seq<char>, ValueV)>, c: PopCtx)
    ensures
        first_arg(args, "var_count"@) is None ==> (spec_populate(ValueV::Plurals(p), args, c) matches Ok(r) ==> r
            matches ValueV::Plurals(q) && same_plural_shape(q, p, p.count_key)),
        first_arg(args, "var_count"@) matches Some(ValueV::Variable(k, _)) ==> (spec_populate(
            ValueV::Plurals(p),
            args,
            c,
        ) matches Ok(r) ==> r matches ValueV::Plurals(q) && same_plural_shape(q, p, k)),
{
    lemma_populate_forms_shape(p.forms, args, c);
    if first_arg(args, "var_count"@) is None {
        assert(spec_populate(ValueV::Plurals(p), args, c) == with_new_key(p, p.count_key, args, c));
    }
    if let Some(ValueV::Variable(k, b)) = first_arg(args, "var_count"@) {
        assert(spec_populate(ValueV::Plurals(p), args, c) == populate_with_count(p, ValueV::Variable(k, b), args, c));
        assert(populate_with_count(p, ValueV::Variable(k, b), args, c) == with_new_key(p, k, args, c));
    }
}

/// A value with nested keys is no foreign key target: filling it is an
/// error naming the foreign key, the locale and the key where it is used.
pub proof fn law_populate_nested_fails(es: Seq<(Seq<char>, ValueV)>, args: Seq<(Seq<char>, ValueV)>, c: PopCtx)
    ensures
        spec_populate(ValueV::Subkeys(es), args, c) == Err::<ValueV, ErrV>(
            ErrV::InvalidForeignKey { foreign_key: c.fk, locale: c.locale, key_path: c.kp },
        ),
{
}

} // verus!
