//! Linking foreign keys: a reference `$t(path, {args})` is replaced by the
//! value found at `path` in the same locale, itself linked, and filled with
//! the (linked) arguments. A reference to an explicit default is looked up
//! in the default locale; a reference that comes back to a value being
//! linked is an error.

use vstd::prelude::*;
use crate::builders::key_path_eq;
use crate::error::{ErrV, Error};
use crate::key::{Key, KeyPath, KeyPathV};
use crate::plurals::PluralForm;
use crate::plural_rules::{plural_category, plural_category_decimal};
use crate::populate::{
    PopCtx, abs_u64, first_arg, form_index, populate_forms, populate_seq, populate_with_count, select_form,
    spec_find_variable, spec_populate, with_new_key,
};
use crate::text::str_eq;
use crate::value::{
    FkV, ForeignKey, LiteralV, ParsedValue, Plurals, PluralsV, ValueV, lemma_view_args_len, lemma_view_forms_len,
    lemma_view_values_len, view_args, view_forms, view_value, view_values,
};

verus! {

/// What a translation table holds at a key: a value, or nested keys.
#[derive(Debug, PartialEq)]
pub enum TableValue {
    Value(ParsedValue),
    Subkeys,
}

/// One key of one locale: the locale's name, the key's full path and what
/// it holds.
#[derive(Debug, PartialEq)]
pub struct TableEntry {
    pub locale: Key,
    pub path: KeyPath,
    pub value: TableValue,
}

pub enum TableValueV {
    Value(ValueV),
    Subkeys,
}

pub struct TableEntryV {
    pub locale: Seq<char>,
    pub path: KeyPathV,
    pub value: TableValueV,
}

impl View for TableValue {
    type V = TableValueV;

    open spec fn view(&self) -> TableValueV {
        match self {
            TableValue::Value(v) => TableValueV::Value(v@),
            TableValue::Subkeys => TableValueV::Subkeys,
        }
    }
}

impl View for TableEntry {
    type V = TableEntryV;

    open spec fn view(&self) -> TableEntryV {
        TableEntryV { locale: self.locale@, path: self.path@, value: self.value@ }
    }
}

pub open spec fn table_view(t: Seq<TableEntry>) -> Seq<TableEntryV> {
    t.map_values(|e: TableEntry| e@)
}

pub open spec fn lookup_from(t: Seq<TableEntryV>, loc: Seq<char>, p: KeyPathV, i: int) -> Option<int>
    decreases t.len() - i,
{
    if i < 0 || i >= t.len() {
        None
    } else if t[i].locale == loc && t[i].path == p {
        Some(i)
    } else {
        lookup_from(t, loc, p, i + 1)
    }
}

/// The first entry of locale `loc` at path `p` (an empty path names no
/// value).
pub open spec fn lookup(t: Seq<TableEntryV>, loc: Seq<char>, p: KeyPathV) -> Option<int> {
    if p.path.len() == 0 {
        None
    } else {
        lookup_from(t, loc, p, 0)
    }
}

/// The table being linked and its default locale.
pub struct ResCtx {
    pub t: Seq<TableEntryV>,
    pub dl: Seq<char>,
}

/// A value with its foreign keys linked, in reading order; `loc` is the
/// locale it is read in, `kp` its key, `stack` the entries being linked.
pub open spec fn res_value(c: ResCtx, v: ValueV, loc: Seq<char>, kp: KeyPathV, stack: Seq<int>) -> Result<
    ValueV,
    ErrV,
>
    decreases c.t.len() - stack.len(), v, 3nat,
{
    match v {
        ValueV::ForeignKey(FkV::NotSet(fkp, args)) => match res_fk(c, fkp, args, loc, kp, stack) {
            Ok(w) => Ok(ValueV::ForeignKey(FkV::Resolved(Box::new(w)))),
            Err(e) => Err(e),
        },
        ValueV::Component(k, inner, attrs) => match inner {
            Some(b) => match res_value(c, *b, loc, kp, stack) {
                Ok(x) => Ok(ValueV::Component(k, Some(Box::new(x)), attrs)),
                Err(e) => Err(e),
            },
            None => Ok(v),
        },
        ValueV::Bloc(vs) => match res_seq(c, vs, loc, kp, stack) {
            Ok(ws) => Ok(ValueV::Bloc(ws)),
            Err(e) => Err(e),
        },
        ValueV::Plurals(p) => match res_forms(c, p.forms, loc, kp, stack) {
            Ok(fs) => match res_value(c, *p.other, loc, kp, stack) {
                Ok(o) => Ok(
                    ValueV::Plurals(
                        PluralsV { rule_type: p.rule_type, count_key: p.count_key, other: Box::new(o), forms: fs },
                    ),
                ),
                Err(e) => Err(e),
            },
            Err(e) => Err(e),
        },
        _ => Ok(v),
    }
}

pub open spec fn res_seq(c: ResCtx, vs: Seq<ValueV>, loc: Seq<char>, kp: KeyPathV, stack: Seq<int>) -> Result<
    Seq<ValueV>,
    ErrV,
>
    decreases c.t.len() - stack.len(), vs, 3nat,
{
    if vs.len() == 0 {
        Ok(Seq::empty())
    } else {
        match res_seq(c, vs.drop_last(), loc, kp, stack) {
            Err(e) => Err(e),
            Ok(ws) => match res_value(c, vs.last(), loc, kp, stack) {
                Ok(w) => Ok(ws.push(w)),
                Err(e) => Err(e),
            },
        }
    }
}

pub open spec fn res_forms(
    c: ResCtx,
    fs: Seq<(PluralForm, ValueV)>,
    loc: Seq<char>,
    kp: KeyPathV,
    stack: Seq<int>,
) -> Result<Seq<(PluralForm, ValueV)>, ErrV>
    decreases c.t.len() - stack.len(), fs, 3nat,
{
    if fs.len() == 0 {
        Ok(Seq::empty())
    } else {
        match res_forms(c, fs.drop_last(), loc, kp, stack) {
            Err(e) => Err(e),
            Ok(ws) => match res_value(c, fs.last().1, loc, kp, stack) {
                Ok(w) => Ok(ws.push((fs.last().0, w))),
                Err(e) => Err(e),
            },
        }
    }
}

pub open spec fn res_args(
    c: ResCtx,
    args: Seq<(Seq<char>, ValueV)>,
    loc: Seq<char>,
    kp: KeyPathV,
    stack: Seq<int>,
) -> Result<Seq<(Seq<char>, ValueV)>, ErrV>
    decreases c.t.len() - stack.len(), args, 0nat,
{
    if args.len() == 0 {
        Ok(Seq::empty())
    } else {
        match res_args(c, args.drop_last(), loc, kp, stack) {
            Err(e) => Err(e),
            Ok(ws) => match res_value(c, args.last().1, loc, kp, stack) {
                Ok(w) => Ok(ws.push((args.last().0, w))),
                Err(e) => Err(e),
            },
        }
    }
}

/// What a foreign key to `fkp` with arguments `args` becomes, read in
/// locale `loc` at key `kp`: a missing target is an error; an explicit
/// default target is looked up in the default locale (an error when `loc`
/// is the default locale); a target being linked is a recursion error;
/// otherwise the target is linked, then the arguments, and the linked
/// target is filled with them (a target holding nested keys is an error).
pub open spec fn res_fk(
    c: ResCtx,
    fkp: KeyPathV,
    args: Seq<(Seq<char>, ValueV)>,
    loc: Seq<char>,
    kp: KeyPathV,
    stack: Seq<int>,
) -> Result<ValueV, ErrV>
    decreases c.t.len() - stack.len(), args, if loc == c.dl {
        1nat
    } else {
        2nat
    },
{
    match lookup(c.t, loc, fkp) {
        None => Err(ErrV::MissingForeignKey { foreign_key: fkp, locale: loc, key_path: kp }),
        Some(i) => if c.t[i].value == TableValueV::Value(ValueV::Default) {
            if loc == c.dl {
                Err(ErrV::ExplicitDefaultInDefault(kp))
            } else {
                res_fk(c, fkp, args, c.dl, kp, stack)
            }
        } else if stack.contains(i) {
            Err(ErrV::RecursiveForeignKey { locale: loc, key_path: fkp })
        } else if stack.len() >= c.t.len() {
            Err(ErrV::RecursiveForeignKey { locale: loc, key_path: fkp })
        } else {
            let target = match c.t[i].value {
                TableValueV::Value(tv) => match res_value(c, tv, loc, fkp, stack.push(i)) {
                    Ok(x) => Ok(Some(x)),
                    Err(e) => Err(e),
                },
                TableValueV::Subkeys => Ok(None),
            };
            match target {
                Err(e) => Err(e),
                Ok(tgt) => match res_args(c, args, loc, fkp, stack) {
                    Err(e) => Err(e),
                    Ok(a2) => match tgt {
                        None => Err(ErrV::InvalidForeignKey { foreign_key: fkp, locale: loc, key_path: kp }),
                        Some(x) => spec_populate(x, a2, PopCtx { fk: fkp, locale: loc, kp: kp }),
                    },
                },
            }
        },
    }
}

/// The entries being linked when a value of the table is: the value's own
/// entry.
pub open spec fn init_stack(t: Seq<TableEntryV>, loc: Seq<char>, p: KeyPathV) -> Seq<int> {
    match lookup(t, loc, p) {
        Some(i) => seq![i],
        None => Seq::empty(),
    }
}

/// A value of the table at locale `loc` and path `p`, linked.
pub open spec fn res_top(c: ResCtx, v: ValueV, loc: Seq<char>, p: KeyPathV) -> Result<ValueV, ErrV> {
    res_value(c, v, loc, p, init_stack(c.t, loc, p))
}

/// The first `n` entries of the table, each linked; the first error, in
/// table order, fails it.
pub open spec fn res_table(c: ResCtx, n: int) -> Result<Seq<TableEntryV>, ErrV>
    decreases n,
{
    if n <= 0 {
        Ok(Seq::empty())
    } else {
        match res_table(c, n - 1) {
            Err(e) => Err(e),
            Ok(s) => {
                let e = c.t[n - 1];
                match e.value {
                    TableValueV::Subkeys => Ok(s.push(e)),
                    TableValueV::Value(v) => match res_top(c, v, e.locale, e.path) {
                        Ok(w) => Ok(s.push(TableEntryV { locale: e.locale, path: e.path, value: TableValueV::Value(w) })),
                        Err(er) => Err(er),
                    },
                }
            },
        }
    }
}

/// The stack of entries being linked: distinct positions of the table.
pub open spec fn wf_stack(n: int, s: Seq<int>) -> bool {
    s.no_duplicates() && forall|j: int| 0 <= j < s.len() ==> 0 <= #[trigger] s[j] < n
}

pub open spec fn stack_view(s: Seq<usize>) -> Seq<int> {
    s.map_values(|x: usize| x as int)
}

pub open spec fn ctx_view(t: &Vec<TableEntry>, dl: &Key) -> ResCtx {
    ResCtx { t: table_view(t@), dl: dl@ }
}

pub open spec fn res_matches(r: Result<ParsedValue, Error>, s: Result<ValueV, ErrV>) -> bool {
    match (r, s) {
        (Ok(a), Ok(b)) => a@ == b,
        (Err(a), Err(b)) => a@ == b,
        _ => false,
    }
}

proof fn lemma_stack_bound(s: Seq<int>, n: int)
    requires
        wf_stack(n, s),
        n >= 0,
    ensures
        s.len() <= n,
{
    s.unique_seq_to_set();
    vstd::set_lib::lemma_int_range(0, n);
    assert(s.to_set().subset_of(vstd::set_lib::set_int_range(0, n))) by {
        assert forall|x: int| s.to_set().contains(x) implies vstd::set_lib::set_int_range(0, n).contains(x) by {
            let j = choose|j: int| 0 <= j < s.len() && s[j] == x;
            assert(0 <= s[j] < n);
        }
    }
    vstd::set_lib::lemma_len_subset(s.to_set(), vstd::set_lib::set_int_range(0, n));
}

proof fn lemma_stack_push(s: Seq<int>, n: int, i: int)
    requires
        wf_stack(n, s),
        0 <= i < n,
        !s.contains(i),
    ensures
        wf_stack(n, s.push(i)),
        s.len() < n,
{
    let s2 = s.push(i);
    assert forall|a: int, b: int| 0 <= a < s2.len() && 0 <= b < s2.len() && a != b implies s2[a] != s2[b] by {
        if a < s.len() && b < s.len() {
        } else if a == s.len() {
            assert(s2[b] == s[b]);
        } else {
            assert(s2[a] == s[a]);
        }
    }
    assert forall|j: int| 0 <= j < s2.len() implies 0 <= #[trigger] s2[j] < n by {
        if j < s.len() {
            assert(s2[j] == s[j]);
        }
    }
    lemma_stack_bound(s2, n);
}

fn find_entry(t: &Vec<TableEntry>, loc: &Key, p: &KeyPath) -> (res: Option<usize>)
    ensures
        match res {
            Some(i) => lookup(table_view(t@), loc@, p@) == Some(i as int) && i < t@.len(),
            None => lookup(table_view(t@), loc@, p@) is None,
        },
{
    let ghost tv = table_view(t@);
    if p.path.len() == 0 {
        assert(p@.path.len() == 0);
        return None;
    }
    let mut i: usize = 0;
    while i < t.len()
        invariant
            tv == table_view(t@),
            tv.len() == t@.len(),
            p@.path.len() > 0,
            i <= t@.len(),
            lookup(tv, loc@, p@) == lookup_from(tv, loc@, p@, i as int),
        decreases t@.len() - i,
    {
        assert(tv[i as int] == t@[i as int]@);
        if str_eq(t[i].locale.name.as_str(), loc.name.as_str()) && key_path_eq(&t[i].path, p) {
            return Some(i);
        }
        i = i + 1;
    }
    None
}

fn stack_contains(stack: &Vec<usize>, i: usize) -> (res: bool)
    ensures
        res == stack_view(stack@).contains(i as int),
{
    let mut j: usize = 0;
    while j < stack.len()
        invariant
            j <= stack@.len(),
            forall|k: int| 0 <= k < j ==> stack@[k] != i,
        decreases stack@.len() - j,
    {
        if stack[j] == i {
            assert(stack_view(stack@)[j as int] == i as int);
            return true;
        }
        j = j + 1;
    }
    assert forall|k: int| 0 <= k < stack_view(stack@).len() implies stack_view(stack@)[k] != i as int by {
        assert(stack_view(stack@)[k] == stack@[k] as int);
    }
    false
}

fn rv(
    t: &Vec<TableEntry>,
    dl: &Key,
    v: &ParsedValue,
    loc: &Key,
    kp: &KeyPath,
    stack: &mut Vec<usize>,
) -> (res: Result<ParsedValue, Error>)
    requires
        wf_stack(t@.len() as int, stack_view(old(stack)@)),
    ensures
        final(stack)@ == old(stack)@,
        res_matches(res, res_value(ctx_view(t, dl), v@, loc@, kp@, stack_view(old(stack)@))),
    decreases t@.len() - stack@.len(), v, 3nat,
{
    let ghost c = ctx_view(t, dl);
    let ghost sv = stack_view(stack@);
    match v {
        ParsedValue::ForeignKey(ForeignKey::NotSet(fkp, args)) => {
            proof {
                assert(decreases_to!(*v => (*v)->ForeignKey_0));
                assert(decreases_to!((*v)->ForeignKey_0 => (*v)->ForeignKey_0->NotSet_1));
            }
            match rfk(t, dl, fkp, args, loc, kp, stack) {
                Ok(w) => Ok(ParsedValue::ForeignKey(ForeignKey::Resolved(Box::new(w)))),
                Err(e) => Err(e),
            }
        },
        ParsedValue::Component { key, inner, attributes } => match inner {
            Some(b) => {
                proof {
                    assert(decreases_to!(*v => (*v)->Component_inner));
                    assert(decreases_to!((*v)->Component_inner => (*v)->Component_inner->Some_0));
                }
                match rv(t, dl, b, loc, kp, stack) {
                    Ok(x) => Ok(
                        ParsedValue::Component {
                            key: key.copy(),
                            inner: Some(Box::new(x)),
                            attributes: crate::copy::copy_attrs(attributes),
                        },
                    ),
                    Err(e) => Err(e),
                }
            },
            None => Ok(v.copy()),
        },
        ParsedValue::Bloc(vs) => {
            let ghost vv = view_values(vs@);
            proof {
                lemma_view_values_len(vs@);
            }
            let mut out: Vec<ParsedValue> = Vec::new();
            let mut i: usize = 0;
            assert(vv.take(0) =~= Seq::<ValueV>::empty());
            assert(view_values(out@) =~= Seq::<ValueV>::empty());
            while i < vs.len()
                invariant
                    *v == ParsedValue::Bloc(*vs),
                    vv == view_values(vs@),
                    vv.len() == vs@.len(),
                    forall|j: int| 0 <= j < vs@.len() ==> #[trigger] vv[j] == view_value(vs@[j]),
                    i <= vs@.len(),
                    stack@ == old(stack)@,
                    sv == stack_view(stack@),
                    c == ctx_view(t, dl),
                    wf_stack(t@.len() as int, sv),
                    res_seq(c, vv.take(i as int), loc@, kp@, sv) == Ok::<Seq<ValueV>, ErrV>(view_values(out@)),
                decreases vs@.len() - i,
            {
                proof {
                    assert(decreases_to!(*v => (*v)->Bloc_0));
                    assert(decreases_to!((*v)->Bloc_0 => (*v)->Bloc_0@));
                    assert(decreases_to!((*v)->Bloc_0@ => (*v)->Bloc_0@[i as int]));
                    assert(vv.take(i + 1).drop_last() =~= vv.take(i as int));
                    assert(vv.take(i + 1).last() == vv[i as int]);
                }
                match rv(t, dl, &vs[i], loc, kp, stack) {
                    Ok(w) => {
                        let ghost before = out@;
                        out.push(w);
                        proof {
                            assert(out@.drop_last() =~= before);
                        }
                    },
                    Err(e) => {
                        proof {
                            lemma_res_seq_err(c, vv, loc@, kp@, sv, i as int + 1);
                        }
                        return Err(e);
                    },
                }
                i = i + 1;
            }
            assert(vv.take(i as int) =~= vv);
            Ok(ParsedValue::Bloc(out))
        },
        ParsedValue::Plurals(p) => {
            let ghost fv = view_forms(p.forms@);
            proof {
                lemma_view_forms_len(p.forms@);
            }
            let mut out: Vec<(PluralForm, ParsedValue)> = Vec::new();
            let mut i: usize = 0;
            assert(fv.take(0) =~= Seq::<(PluralForm, ValueV)>::empty());
            assert(view_forms(out@) =~= Seq::<(PluralForm, ValueV)>::empty());
            while i < p.forms.len()
                invariant
                    *v == ParsedValue::Plurals(*p),
                    fv == view_forms(p.forms@),
                    fv.len() == p.forms@.len(),
                    forall|j: int|
                        0 <= j < p.forms@.len() ==> #[trigger] fv[j] == (p.forms@[j].0, view_value(p.forms@[j].1)),
                    i <= p.forms@.len(),
                    stack@ == old(stack)@,
                    sv == stack_view(stack@),
                    c == ctx_view(t, dl),
                    wf_stack(t@.len() as int, sv),
                    res_forms(c, fv.take(i as int), loc@, kp@, sv) == Ok::<Seq<(PluralForm, ValueV)>, ErrV>(
                        view_forms(out@),
                    ),
                decreases p.forms@.len() - i,
            {
                proof {
                    assert(decreases_to!(*v => (*v)->Plurals_0));
                    assert(decreases_to!(*p => p.forms));
                    assert(decreases_to!(p.forms => p.forms@));
                    assert(decreases_to!(p.forms@ => p.forms@[i as int]));
                    assert(decreases_to!(p.forms@[i as int] => p.forms@[i as int].1));
                    assert(fv.take(i + 1).drop_last() =~= fv.take(i as int));
                    assert(fv.take(i + 1).last() == fv[i as int]);
                }
                match rv(t, dl, &p.forms[i].1, loc, kp, stack) {
                    Ok(w) => {
                        let ghost before = out@;
                        out.push((p.forms[i].0, w));
                        proof {
                            assert(out@.drop_last() =~= before);
                        }
                    },
                    Err(e) => {
                        proof {
                            lemma_res_forms_err(c, fv, loc@, kp@, sv, i as int + 1);
                        }
                        return Err(e);
                    },
                }
                i = i + 1;
            }
            assert(fv.take(i as int) =~= fv);
            proof {
                assert(decreases_to!(*v => (*v)->Plurals_0));
                assert(decreases_to!((*v)->Plurals_0 => (*v)->Plurals_0.other));
            }
            match rv(t, dl, &p.other, loc, kp, stack) {
                Ok(o) => Ok(
                    ParsedValue::Plurals(
                        Plurals { rule_type: p.rule_type, count_key: p.count_key.copy(), other: Box::new(o), forms: out },
                    ),
                ),
                Err(e) => Err(e),
            }
        },
        _ => Ok(v.copy()),
    }
}

proof fn lemma_res_seq_err(c: ResCtx, vs: Seq<ValueV>, loc: Seq<char>, kp: KeyPathV, s: Seq<int>, k: int)
    requires
        1 <= k <= vs.len(),
        res_seq(c, vs.take(k), loc, kp, s) is Err,
    ensures
        res_seq(c, vs, loc, kp, s) == res_seq(c, vs.take(k), loc, kp, s),
    decreases vs.len() - k,
{
    if k < vs.len() {
        assert(vs.take(k + 1).drop_last() =~= vs.take(k));
        lemma_res_seq_err(c, vs, loc, kp, s, k + 1);
    } else {
        assert(vs.take(k) =~= vs);
    }
}

proof fn lemma_res_forms_err(
    c: ResCtx,
    fs: Seq<(PluralForm, ValueV)>,
    loc: Seq<char>,
    kp: KeyPathV,
    s: Seq<int>,
    k: int,
)
    requires
        1 <= k <= fs.len(),
        res_forms(c, fs.take(k), loc, kp, s) is Err,
    ensures
        res_forms(c, fs, loc, kp, s) == res_forms(c, fs.take(k), loc, kp, s),
    decreases fs.len() - k,
{
    if k < fs.len() {
        assert(fs.take(k + 1).drop_last() =~= fs.take(k));
        lemma_res_forms_err(c, fs, loc, kp, s, k + 1);
    } else {
        assert(fs.take(k) =~= fs);
    }
}

proof fn lemma_res_args_err(
    c: ResCtx,
    a: Seq<(Seq<char>, ValueV)>,
    loc: Seq<char>,
    kp: KeyPathV,
    s: Seq<int>,
    k: int,
)
    requires
        1 <= k <= a.len(),
        res_args(c, a.take(k), loc, kp, s) is Err,
    ensures
        res_args(c, a, loc, kp, s) == res_args(c, a.take(k), loc, kp, s),
    decreases a.len() - k,
{
    if k < a.len() {
        assert(a.take(k + 1).drop_last() =~= a.take(k));
        lemma_res_args_err(c, a, loc, kp, s, k + 1);
    } else {
        assert(a.take(k) =~= a);
    }
}

fn rargs(
    t: &Vec<TableEntry>,
    dl: &Key,
    args: &Vec<(String, ParsedValue)>,
    loc: &Key,
    kp: &KeyPath,
    stack: &mut Vec<usize>,
) -> (res: Result<Vec<(String, ParsedValue)>, Error>)
    requires
        wf_stack(t@.len() as int, stack_view(old(stack)@)),
    ensures
        final(stack)@ == old(stack)@,
        match (res, res_args(ctx_view(t, dl), view_args(args@), loc@, kp@, stack_view(old(stack)@))) {
            (Ok(a), Ok(b)) => view_args(a@) == b,
            (Err(a), Err(b)) => a@ == b,
            _ => false,
        },
    decreases t@.len() - stack@.len(), args, 0nat,
{
    let ghost c = ctx_view(t, dl);
    let ghost sv = stack_view(stack@);
    let ghost av = view_args(args@);
    proof {
        lemma_view_args_len(args@);
    }
    let mut out: Vec<(String, ParsedValue)> = Vec::new();
    let mut i: usize = 0;
    assert(av.take(0) =~= Seq::<(Seq<char>, ValueV)>::empty());
    assert(view_args(out@) =~= Seq::<(Seq<char>, ValueV)>::empty());
    while i < args.len()
        invariant
            av == view_args(args@),
            av.len() == args@.len(),
            forall|j: int| 0 <= j < args@.len() ==> #[trigger] av[j] == (args@[j].0@, view_value(args@[j].1)),
            i <= args@.len(),
            stack@ == old(stack)@,
            sv == stack_view(stack@),
            c == ctx_view(t, dl),
            wf_stack(t@.len() as int, sv),
            res_args(c, av.take(i as int), loc@, kp@, sv) == Ok::<Seq<(Seq<char>, ValueV)>, ErrV>(view_args(out@)),
        decreases args@.len() - i,
    {
        proof {
            assert(decreases_to!(*args => args@));
            assert(decreases_to!(args@ => args@[i as int]));
            assert(decreases_to!(args@[i as int] => args@[i as int].1));
            assert(av.take(i + 1).drop_last() =~= av.take(i as int));
            assert(av.take(i + 1).last() == av[i as int]);
        }
        match rv(t, dl, &args[i].1, loc, kp, stack) {
            Ok(w) => {
                let ghost before = out@;
                out.push((crate::text::to_owned(args[i].0.as_str()), w));
                proof {
                    assert(out@.drop_last() =~= before);
                }
            },
            Err(e) => {
                proof {
                    lemma_res_args_err(c, av, loc@, kp@, sv, i as int + 1);
                }
                return Err(e);
            },
        }
        i = i + 1;
    }
    assert(av.take(i as int) =~= av);
    Ok(out)
}

fn rfk(
    t: &Vec<TableEntry>,
    dl: &Key,
    fkp: &KeyPath,
    args: &Vec<(String, ParsedValue)>,
    loc: &Key,
    kp: &KeyPath,
    stack: &mut Vec<usize>,
) -> (res: Result<ParsedValue, Error>)
    requires
        wf_stack(t@.len() as int, stack_view(old(stack)@)),
    ensures
        final(stack)@ == old(stack)@,
        res_matches(res, res_fk(ctx_view(t, dl), fkp@, view_args(args@), loc@, kp@, stack_view(old(stack)@))),
    decreases t@.len() - stack@.len(), args, if loc@ == dl@ {
        1nat
    } else {
        2nat
    },
{
    let ghost c = ctx_view(t, dl);
    let ghost sv = stack_view(stack@);
    let i = match find_entry(t, loc, fkp) {
        None => {
            return Err(Error::MissingForeignKey { foreign_key: fkp.copy(), locale: loc.copy(), key_path: kp.copy() });
        },
        Some(i) => i,
    };
    assert(c.t[i as int] == t@[i as int]@);
    let is_default = match &t[i].value {
        TableValue::Value(ParsedValue::Default) => true,
        _ => false,
    };
    if is_default {
        if str_eq(loc.name.as_str(), dl.name.as_str()) {
            return Err(Error::ExplicitDefaultInDefault(kp.copy()));
        }
        return rfk(t, dl, fkp, args, dl, kp, stack);
    }
    if stack_contains(stack, i) {
        return Err(Error::RecursiveForeignKey { locale: loc.copy(), key_path: fkp.copy() });
    }
    proof {
        lemma_stack_push(sv, t@.len() as int, i as int);
    }
    let target: Option<ParsedValue> = match &t[i].value {
        TableValue::Value(tv) => {
            let ghost before = stack@;
            stack.push(i);
            assert(stack_view(stack@) =~= sv.push(i as int));
            let r = rv(t, dl, tv, loc, fkp, stack);
            let _ = stack.pop();
            assert(stack@ =~= before);
            match r {
                Ok(x) => Some(x),
                Err(e) => return Err(e),
            }
        },
        TableValue::Subkeys => None,
    };
    let args2 = match rargs(t, dl, args, loc, fkp, stack) {
        Ok(a) => a,
        Err(e) => return Err(e),
    };
    match target {
        None => Err(Error::InvalidForeignKey { foreign_key: fkp.copy(), locale: loc.copy(), key_path: kp.copy() }),
        Some(x) => x.populate(&args2, fkp, loc, kp),
    }
}

impl ParsedValue {
    /// The value with its foreign keys linked against `values` (see
    /// `res_top`): `top_locale` is the locale it is read in, `path` its key.
    pub fn resolve_foreign_key(
        &self,
        values: &Vec<TableEntry>,
        top_locale: &Key,
        default_locale: &Key,
        path: &KeyPath,
    ) -> (res: Result<ParsedValue, Error>)
        ensures
            res_matches(res, res_top(ctx_view(values, default_locale), self@, top_locale@, path@)),
    {
        let mut stack: Vec<usize> = Vec::new();
        match find_entry(values, top_locale, path) {
            Some(i) => stack.push(i),
            None => {},
        }
        assert(stack_view(stack@) =~= init_stack(table_view(values@), top_locale@, path@));
        rv(values, default_locale, self, top_locale, path, &mut stack)
    }
}

/// Every value of the table with its foreign keys linked (see `res_table`).
pub fn resolve_foreign_keys(values: &Vec<TableEntry>, default_locale: &Key) -> (res: Result<Vec<TableEntry>, Error>)
    ensures
        match (res, res_table(ctx_view(values, default_locale), values@.len() as int)) {
            (Ok(a), Ok(b)) => table_view(a@) == b,
            (Err(a), Err(b)) => a@ == b,
            _ => false,
        },
{
    let ghost c = ctx_view(values, default_locale);
    let mut out: Vec<TableEntry> = Vec::new();
    let mut i: usize = 0;
    assert(table_view(out@) =~= Seq::<TableEntryV>::empty());
    while i < values.len()
        invariant
            i <= values@.len(),
            c == ctx_view(values, default_locale),
            c.t.len() == values@.len(),
            res_table(c, i as int) == Ok::<Seq<TableEntryV>, ErrV>(table_view(out@)),
        decreases values@.len() - i,
    {
        let e = &values[i];
        assert(c.t[i as int] == e@);
        let value = match &e.value {
            TableValue::Subkeys => TableValue::Subkeys,
            TableValue::Value(v) => match v.resolve_foreign_key(values, &e.locale, default_locale, &e.path) {
                Ok(w) => TableValue::Value(w),
                Err(er) => {
                    proof {
                        lemma_res_table_err(c, i as int + 1, values@.len() as int);
                    }
                    return Err(er);
                },
            },
        };
        let ghost before = out@;
        out.push(TableEntry { locale: e.locale.copy(), path: e.path.copy(), value });
        assert(table_view(out@) =~= table_view(before).push(out@.last()@));
        i = i + 1;
    }
    Ok(out)
}

proof fn lemma_res_table_err(c: ResCtx, k: int, n: int)
    requires
        1 <= k <= n,
        res_table(c, k) is Err,
    ensures
        res_table(c, n) == res_table(c, k),
    decreases n - k,
{
    if k < n {
        lemma_res_table_err(c, k + 1, n);
    }
}

/// No unset foreign key anywhere in the value, linked targets included.
pub open spec fn fks_set(v: ValueV) -> bool
    decreases v,
{
    match v {
        ValueV::ForeignKey(FkV::NotSet(_, _)) => false,
        ValueV::ForeignKey(FkV::Resolved(b)) => fks_set(*b),
        ValueV::Component(_, inner, _) => match inner {
            Some(b) => fks_set(*b),
            None => true,
        },
        ValueV::Bloc(vs) => forall|j: int| 0 <= j < vs.len() ==> fks_set(#[trigger] vs[j]),
        ValueV::Plurals(p) => fks_set(*p.other) && forall|j: int|
            0 <= j < p.forms.len() ==> fks_set(#[trigger] p.forms[j].1),
        _ => true,
    }
}

/// Every foreign key of the value that is already linked is linked all the
/// way down (unset ones may remain, their arguments likewise).
pub open spec fn links_settled(v: ValueV) -> bool
    decreases v,
{
    match v {
        ValueV::ForeignKey(FkV::NotSet(_, args)) => forall|j: int|
            0 <= j < args.len() ==> links_settled(#[trigger] args[j].1),
        ValueV::ForeignKey(FkV::Resolved(b)) => fks_set(*b),
        ValueV::Component(_, inner, _) => match inner {
            Some(b) => links_settled(*b),
            None => true,
        },
        ValueV::Bloc(vs) => forall|j: int| 0 <= j < vs.len() ==> links_settled(#[trigger] vs[j]),
        ValueV::Plurals(p) => links_settled(*p.other) && forall|j: int|
            0 <= j < p.forms.len() ==> links_settled(#[trigger] p.forms[j].1),
        _ => true,
    }
}

pub open spec fn table_settled(t: Seq<TableEntryV>) -> bool {
    forall|i: int|
        0 <= i < t.len() ==> match #[trigger] t[i].value {
            TableValueV::Value(tv) => links_settled(tv),
            TableValueV::Subkeys => true,
        }
}

pub open spec fn args_set(args: Seq<(Seq<char>, ValueV)>) -> bool {
    forall|j: int| 0 <= j < args.len() ==> fks_set(#[trigger] args[j].1)
}

proof fn lemma_first_arg_set(args: Seq<(Seq<char>, ValueV)>, k: Seq<char>)
    requires
        args_set(args),
    ensures
        first_arg(args, k) matches Some(a) ==> fks_set(a),
    decreases args.len(),
{
    if args.len() > 0 && args[0].0 != k {
        assert forall|j: int| 0 <= j < args.drop_first().len() implies fks_set(
            #[trigger] args.drop_first()[j].1,
        ) by {
            assert(args.drop_first()[j] == args[j + 1]);
        }
        lemma_first_arg_set(args.drop_first(), k);
    }
}

proof fn lemma_pop_value(v: ValueV, args: Seq<(Seq<char>, ValueV)>, c: PopCtx)
    requires
        fks_set(v),
        args_set(args),
    ensures
        spec_populate(v, args, c) matches Ok(w) ==> fks_set(w),
    decreases v, 1nat,
{
    match v {
        ValueV::Variable(key, _) => lemma_first_arg_set(args, key),
        ValueV::Component(_, inner, _) => match inner {
            Some(b) => lemma_pop_value(*b, args, c),
            None => {},
        },
        ValueV::Bloc(vs) => lemma_pop_seq(vs, args, c),
        ValueV::Plurals(p) => {
            lemma_first_arg_set(args, "var_count"@);
            match first_arg(args, "var_count"@) {
                Some(count) => lemma_pop_count(p, count, args, c),
                None => lemma_pop_new_key(p, p.count_key, args, c),
            }
        },
        _ => {},
    }
}

proof fn lemma_pop_seq(vs: Seq<ValueV>, args: Seq<(Seq<char>, ValueV)>, c: PopCtx)
    requires
        forall|j: int| 0 <= j < vs.len() ==> fks_set(#[trigger] vs[j]),
        args_set(args),
    ensures
        populate_seq(vs, args, c) matches Ok(ws) ==> ws.len() == vs.len() && forall|j: int|
            0 <= j < ws.len() ==> fks_set(#[trigger] ws[j]),
    decreases vs, 1nat,
{
    if vs.len() > 0 {
        assert forall|j: int| 0 <= j < vs.drop_last().len() implies fks_set(#[trigger] vs.drop_last()[j]) by {
            assert(vs.drop_last()[j] == vs[j]);
        }
        lemma_pop_seq(vs.drop_last(), args, c);
        assert(fks_set(vs[vs.len() - 1]));
        lemma_pop_value(vs.last(), args, c);
    }
}

proof fn lemma_pop_forms(fs: Seq<(PluralForm, ValueV)>, args: Seq<(Seq<char>, ValueV)>, c: PopCtx)
    requires
        forall|j: int| 0 <= j < fs.len() ==> fks_set(#[trigger] fs[j].1),
        args_set(args),
    ensures
        populate_forms(fs, args, c) matches Ok(ws) ==> ws.len() == fs.len() && forall|j: int|
            0 <= j < ws.len() ==> fks_set(#[trigger] ws[j].1),
    decreases fs, 1nat,
{
    if fs.len() > 0 {
        assert forall|j: int| 0 <= j < fs.drop_last().len() implies fks_set(#[trigger] fs.drop_last()[j].1) by {
            assert(fs.drop_last()[j] == fs[j]);
        }
        lemma_pop_forms(fs.drop_last(), args, c);
        assert(fks_set(fs[fs.len() - 1].1));
        lemma_pop_value(fs.last().1, args, c);
    }
}

proof fn lemma_pop_new_key(p: PluralsV, k: Seq<char>, args: Seq<(Seq<char>, ValueV)>, c: PopCtx)
    requires
        fks_set(*p.other),
        forall|j: int| 0 <= j < p.forms.len() ==> fks_set(#[trigger] p.forms[j].1),
        args_set(args),
    ensures
        with_new_key(p, k, args, c) matches Ok(w) ==> fks_set(w),
    decreases p, 0nat,
{
    lemma_pop_value(*p.other, args, c);
    lemma_pop_forms(p.forms, args, c);
}

proof fn lemma_pop_select(p: PluralsV, cat: PluralForm, args: Seq<(Seq<char>, ValueV)>, c: PopCtx)
    requires
        fks_set(*p.other),
        forall|j: int| 0 <= j < p.forms.len() ==> fks_set(#[trigger] p.forms[j].1),
        args_set(args),
    ensures
        select_form(p, cat, args, c) matches Ok(w) ==> fks_set(w),
    decreases p, 0nat,
{
    lemma_pop_value(*p.other, args, c);
    match form_index(p.forms, cat) {
        Some(i) => if 0 <= i < p.forms.len() {
            assert(fks_set(p.forms[i].1));
            lemma_pop_value(p.forms[i].1, args, c);
        },
        None => {},
    }
}

proof fn lemma_pop_count(p: PluralsV, count: ValueV, args: Seq<(Seq<char>, ValueV)>, c: PopCtx)
    requires
        fks_set(*p.other),
        forall|j: int| 0 <= j < p.forms.len() ==> fks_set(#[trigger] p.forms[j].1),
        args_set(args),
    ensures
        populate_with_count(p, count, args, c) matches Ok(w) ==> fks_set(w),
    decreases p, 1nat,
{
    lemma_pop_new_key(p, p.count_key, args, c);
    match count {
        ValueV::Literal(LiteralV::Float(t)) => match plural_category_decimal(c.locale, p.rule_type, crate::populate::shortest_text(t)) {
            Some(cat) => lemma_pop_select(p, cat, args, c),
            None => {},
        },
        ValueV::Literal(LiteralV::Unsigned(n)) => lemma_pop_select(
            p,
            plural_category(c.locale, p.rule_type, n),
            args,
            c,
        ),
        ValueV::Literal(LiteralV::Signed(n)) => lemma_pop_select(
            p,
            plural_category(c.locale, p.rule_type, abs_u64(n)),
            args,
            c,
        ),
        ValueV::Bloc(vs) => match spec_find_variable(vs, 0) {
            Some(k) => lemma_pop_new_key(p, k, args, c),
            None => {},
        },
        ValueV::Variable(k, _) => lemma_pop_new_key(p, k, args, c),
        _ => {},
    }
}

proof fn lemma_lookup_from_range(t: Seq<TableEntryV>, loc: Seq<char>, p: KeyPathV, i: int)
    ensures
        lookup_from(t, loc, p, i) matches Some(j) ==> 0 <= i <= j < t.len(),
    decreases t.len() - i,
{
    if 0 <= i < t.len() && !(t[i].locale == loc && t[i].path == p) {
        lemma_lookup_from_range(t, loc, p, i + 1);
    }
}

proof fn lemma_res_value_set(c: ResCtx, v: ValueV, loc: Seq<char>, kp: KeyPathV, s: Seq<int>)
    requires
        table_settled(c.t),
        links_settled(v),
    ensures
        res_value(c, v, loc, kp, s) matches Ok(w) ==> fks_set(w),
    decreases c.t.len() - s.len(), v, 3nat,
{
    match v {
        ValueV::ForeignKey(FkV::NotSet(fkp, args)) => lemma_res_fk_set(c, fkp, args, loc, kp, s),
        ValueV::Component(_, inner, _) => match inner {
            Some(b) => lemma_res_value_set(c, *b, loc, kp, s),
            None => {},
        },
        ValueV::Bloc(vs) => lemma_res_seq_set(c, vs, loc, kp, s),
        ValueV::Plurals(p) => {
            lemma_res_forms_set(c, p.forms, loc, kp, s);
            lemma_res_value_set(c, *p.other, loc, kp, s);
        },
        _ => {},
    }
}

proof fn lemma_res_seq_set(c: ResCtx, vs: Seq<ValueV>, loc: Seq<char>, kp: KeyPathV, s: Seq<int>)
    requires
        table_settled(c.t),
        forall|j: int| 0 <= j < vs.len() ==> links_settled(#[trigger] vs[j]),
    ensures
        res_seq(c, vs, loc, kp, s) matches Ok(ws) ==> ws.len() == vs.len() && forall|j: int|
            0 <= j < ws.len() ==> fks_set(#[trigger] ws[j]),
    decreases c.t.len() - s.len(), vs, 3nat,
{
    if vs.len() > 0 {
        assert forall|j: int| 0 <= j < vs.drop_last().len() implies links_settled(#[trigger] vs.drop_last()[j]) by {
            assert(vs.drop_last()[j] == vs[j]);
        }
        lemma_res_seq_set(c, vs.drop_last(), loc, kp, s);
        assert(links_settled(vs[vs.len() - 1]));
        lemma_res_value_set(c, vs.last(), loc, kp, s);
    }
}

proof fn lemma_res_forms_set(c: ResCtx, fs: Seq<(PluralForm, ValueV)>, loc: Seq<char>, kp: KeyPathV, s: Seq<int>)
    requires
        table_settled(c.t),
        forall|j: int| 0 <= j < fs.len() ==> links_settled(#[trigger] fs[j].1),
    ensures
        res_forms(c, fs, loc, kp, s) matches Ok(ws) ==> ws.len() == fs.len() && forall|j: int|
            0 <= j < ws.len() ==> fks_set(#[trigger] ws[j].1),
    decreases c.t.len() - s.len(), fs, 3nat,
{
    if fs.len() > 0 {
        assert forall|j: int| 0 <= j < fs.drop_last().len() implies links_settled(#[trigger] fs.drop_last()[j].1) by {
            assert(fs.drop_last()[j] == fs[j]);
        }
        lemma_res_forms_set(c, fs.drop_last(), loc, kp, s);
        assert(links_settled(fs[fs.len() - 1].1));
        lemma_res_value_set(c, fs.last().1, loc, kp, s);
    }
}

proof fn lemma_res_args_set(c: ResCtx, args: Seq<(Seq<char>, ValueV)>, loc: Seq<char>, kp: KeyPathV, s: Seq<int>)
    requires
        table_settled(c.t),
        forall|j: int| 0 <= j < args.len() ==> links_settled(#[trigger] args[j].1),
    ensures
        res_args(c, args, loc, kp, s) matches Ok(a) ==> args_set(a),
    decreases c.t.len() - s.len(), args, 0nat,
{
    if args.len() > 0 {
        assert forall|j: int| 0 <= j < args.drop_last().len() implies links_settled(
            #[trigger] args.drop_last()[j].1,
        ) by {
            assert(args.drop_last()[j] == args[j]);
        }
        lemma_res_args_set(c, args.drop_last(), loc, kp, s);
        assert(links_settled(args[args.len() - 1].1));
        lemma_res_value_set(c, args.last().1, loc, kp, s);
        match res_args(c, args.drop_last(), loc, kp, s) {
            Ok(ws) => match res_value(c, args.last().1, loc, kp, s) {
                Ok(w) => {
                    let r = ws.push((args.last().0, w));
                    assert forall|j: int| 0 <= j < r.len() implies fks_set(#[trigger] r[j].1) by {
                        if j < ws.len() {
                            assert(r[j] == ws[j]);
                        }
                    }
                },
                Err(_) => {},
            },
            Err(_) => {},
        }
    }
}

proof fn lemma_res_fk_set(
    c: ResCtx,
    fkp: KeyPathV,
    args: Seq<(Seq<char>, ValueV)>,
    loc: Seq<char>,
    kp: KeyPathV,
    s: Seq<int>,
)
    requires
        table_settled(c.t),
        forall|j: int| 0 <= j < args.len() ==> links_settled(#[trigger] args[j].1),
    ensures
        res_fk(c, fkp, args, loc, kp, s) matches Ok(w) ==> fks_set(w),
    decreases c.t.len() - s.len(), args, if loc == c.dl {
        1nat
    } else {
        2nat
    },
{
    if fkp.path.len() > 0 {
        lemma_lookup_from_range(c.t, loc, fkp, 0);
    }
    match lookup(c.t, loc, fkp) {
        None => {},
        Some(i) => if c.t[i].value == TableValueV::Value(ValueV::Default) {
            if loc != c.dl {
                lemma_res_fk_set(c, fkp, args, c.dl, kp, s);
            }
        } else if stack_blocks(c, s, i) {
        } else {
            match c.t[i].value {
                TableValueV::Value(tv) => {
                    assert(links_settled(tv));
                    lemma_res_value_set(c, tv, loc, fkp, s.push(i));
                },
                TableValueV::Subkeys => {},
            }
            lemma_res_args_set(c, args, loc, fkp, s);
            let target = match c.t[i].value {
                TableValueV::Value(tv) => match res_value(c, tv, loc, fkp, s.push(i)) {
                    Ok(x) => Ok(Some(x)),
                    Err(e) => Err(e),
                },
                TableValueV::Subkeys => Ok(None),
            };
            match (target, res_args(c, args, loc, fkp, s)) {
                (Ok(Some(x)), Ok(a2)) => lemma_pop_value(x, a2, PopCtx { fk: fkp, locale: loc, kp: kp }),
                _ => {},
            }
        },
    }
}

pub open spec fn stack_blocks(c: ResCtx, s: Seq<int>, i: int) -> bool {
    s.contains(i) || s.len() >= c.t.len()
}

/// Linking leaves no foreign key unset: when every foreign key already
/// linked in the value and in the table is linked all the way down, a
/// value that links successfully holds no unset foreign key.
pub proof fn law_linking_sets_every_foreign_key(c: ResCtx, v: ValueV, loc: Seq<char>, kp: KeyPathV)
    requires
        table_settled(c.t),
        links_settled(v),
    ensures
        res_top(c, v, loc, kp) matches Ok(w) ==> fks_set(w),
{
    lemma_res_value_set(c, v, loc, kp, init_stack(c.t, loc, kp));
}

/// No unset foreign key in the value (linked ones are not looked into).
pub open spec fn no_unset_fk(v: ValueV) -> bool
    decreases v,
{
    match v {
        ValueV::ForeignKey(FkV::NotSet(_, _)) => false,
        ValueV::Component(_, inner, _) => match inner {
            Some(b) => no_unset_fk(*b),
            None => true,
        },
        ValueV::Bloc(vs) => forall|j: int| 0 <= j < vs.len() ==> no_unset_fk(#[trigger] vs[j]),
        ValueV::Plurals(p) => no_unset_fk(*p.other) && forall|j: int|
            0 <= j < p.forms.len() ==> no_unset_fk(#[trigger] p.forms[j].1),
        _ => true,
    }
}

proof fn lemma_res_identity(c: ResCtx, v: ValueV, loc: Seq<char>, kp: KeyPathV, s: Seq<int>)
    requires
        no_unset_fk(v),
    ensures
        res_value(c, v, loc, kp, s) == Ok::<ValueV, ErrV>(v),
    decreases v, 1nat,
{
    match v {
        ValueV::Component(_, inner, _) => match inner {
            Some(b) => lemma_res_identity(c, *b, loc, kp, s),
            None => {},
        },
        ValueV::Bloc(vs) => lemma_res_seq_identity(c, vs, loc, kp, s),
        ValueV::Plurals(p) => {
            lemma_res_forms_identity(c, p.forms, loc, kp, s);
            lemma_res_identity(c, *p.other, loc, kp, s);
        },
        _ => {},
    }
}

proof fn lemma_res_seq_identity(c: ResCtx, vs: Seq<ValueV>, loc: Seq<char>, kp: KeyPathV, s: Seq<int>)
    requires
        forall|j: int| 0 <= j < vs.len() ==> no_unset_fk(#[trigger] vs[j]),
    ensures
        res_seq(c, vs, loc, kp, s) == Ok::<Seq<ValueV>, ErrV>(vs),
    decreases vs, 1nat,
{
    if vs.len() > 0 {
        assert forall|j: int| 0 <= j < vs.drop_last().len() implies no_unset_fk(#[trigger] vs.drop_last()[j]) by {
            assert(vs.drop_last()[j] == vs[j]);
        }
        lemma_res_seq_identity(c, vs.drop_last(), loc, kp, s);
        assert(decreases_to!(vs => vs[vs.len() - 1]));
        assert(no_unset_fk(vs[vs.len() - 1]));
        lemma_res_identity(c, vs.last(), loc, kp, s);
        assert(vs.drop_last().push(vs.last()) =~= vs);
    } else {
        assert(vs =~= Seq::<ValueV>::empty());
    }
}

proof fn lemma_res_forms_identity(
    c: ResCtx,
    fs: Seq<(PluralForm, ValueV)>,
    loc: Seq<char>,
    kp: KeyPathV,
    s: Seq<int>,
)
    requires
        forall|j: int| 0 <= j < fs.len() ==> no_unset_fk(#[trigger] fs[j].1),
    ensures
        res_forms(c, fs, loc, kp, s) == Ok::<Seq<(PluralForm, ValueV)>, ErrV>(fs),
    decreases fs, 1nat,
{
    if fs.len() > 0 {
        assert forall|j: int| 0 <= j < fs.drop_last().len() implies no_unset_fk(#[trigger] fs.drop_last()[j].1) by {
            assert(fs.drop_last()[j] == fs[j]);
        }
        lemma_res_forms_identity(c, fs.drop_last(), loc, kp, s);
        assert(decreases_to!(fs => fs[fs.len() - 1]));
        assert(decreases_to!(fs[fs.len() - 1] => fs[fs.len() - 1].1));
        assert(no_unset_fk(fs[fs.len() - 1].1));
        lemma_res_identity(c, fs.last().1, loc, kp, s);
        assert(fs.drop_last().push((fs.last().0, fs.last().1)) =~= fs);
    } else {
        assert(fs =~= Seq::<(PluralForm, ValueV)>::empty());
    }
}

/// Linking a value that holds no unset foreign key gives it back as it is,
/// whatever the table.
pub proof fn law_linking_without_foreign_keys_is_identity(c: ResCtx, v: ValueV, loc: Seq<char>, kp: KeyPathV)
    requires
        no_unset_fk(v),
    ensures
        res_top(c, v, loc, kp) == Ok::<ValueV, ErrV>(v),
{
    lemma_res_identity(c, v, loc, kp, init_stack(c.t, loc, kp));
}

} // verus!
