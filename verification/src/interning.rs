//! Giving the string literals of a value their places in the string table of
//! their locale.

use vstd::prelude::*;
use crate::indexer::{StringIndexer, all_distinct};
use crate::plurals::PluralForm;
use crate::value::{
    Attribute, AttributeV, AttributeValue, AttributeValueV, Literal, LiteralV, ParsedValue, Plurals,
    PluralsV, ValueV, attrs_view, lemma_view_forms_len, lemma_view_values_len, view_forms, view_value,
    view_values,
};

verus! {

/// The place of `s` in a table: where it stands, or the end.
pub open spec fn intern_index(t: Seq<Seq<char>>, s: Seq<char>) -> int {
    if t.contains(s) {
        choose|i: int| 0 <= i < t.len() && t[i] == s
    } else {
        t.len() as int
    }
}

/// The table with `s` added at the end unless it is already there.
pub open spec fn intern(t: Seq<Seq<char>>, s: Seq<char>) -> Seq<Seq<char>> {
    if t.contains(s) {
        t
    } else {
        t.push(s)
    }
}

/// A literal with its string placed in the table, and the table after it.
pub open spec fn index_literal(l: LiteralV, t: Seq<Seq<char>>) -> (LiteralV, Seq<Seq<char>>) {
    match l {
        LiteralV::String(s, _) => (LiteralV::String(s, intern_index(t, s) as usize), intern(t, s)),
        _ => (l, t),
    }
}

pub open spec fn index_attr(a: AttributeV, t: Seq<Seq<char>>) -> (AttributeV, Seq<Seq<char>>) {
    match a.value {
        Some(AttributeValueV::Literal(l)) => (
            AttributeV { key: a.key, value: Some(AttributeValueV::Literal(index_literal(l, t).0)) },
            index_literal(l, t).1,
        ),
        _ => (a, t),
    }
}

/// Attributes indexed in their order.
pub open spec fn index_attrs(a: Seq<AttributeV>, t: Seq<Seq<char>>) -> (Seq<AttributeV>, Seq<Seq<char>>)
    decreases a.len(),
{
    if a.len() == 0 {
        (Seq::empty(), t)
    } else {
        let prev = index_attrs(a.drop_last(), t);
        let last = index_attr(a.last(), prev.1);
        (prev.0.push(last.0), last.1)
    }
}

/// A value with each of its string literals placed in the table, read in
/// order: a component's inner value before its attributes, a plural's forms
/// before its `other` form.
pub open spec fn index_value(v: ValueV, t: Seq<Seq<char>>) -> (ValueV, Seq<Seq<char>>)
    decreases v, 1nat,
{
    match v {
        ValueV::Literal(l) => (ValueV::Literal(index_literal(l, t).0), index_literal(l, t).1),
        ValueV::Component(k, inner, attrs) => match inner {
            Some(b) => {
                let x = index_value(*b, t);
                let a = index_attrs(attrs, x.1);
                (ValueV::Component(k, Some(Box::new(x.0)), a.0), a.1)
            },
            None => {
                let a = index_attrs(attrs, t);
                (ValueV::Component(k, None, a.0), a.1)
            },
        },
        ValueV::Bloc(vs) => {
            let r = index_seq(vs, t);
            (ValueV::Bloc(r.0), r.1)
        },
        ValueV::Plurals(p) => {
            let f = index_forms(p.forms, t);
            let o = index_value(*p.other, f.1);
            (
                ValueV::Plurals(
                    PluralsV { rule_type: p.rule_type, count_key: p.count_key, other: Box::new(o.0), forms: f.0 },
                ),
                o.1,
            )
        },
        _ => (v, t),
    }
}

pub open spec fn index_seq(vs: Seq<ValueV>, t: Seq<Seq<char>>) -> (Seq<ValueV>, Seq<Seq<char>>)
    decreases vs, 1nat,
{
    if vs.len() == 0 {
        (Seq::empty(), t)
    } else {
        let prev = index_seq(vs.drop_last(), t);
        let last = index_value(vs.last(), prev.1);
        (prev.0.push(last.0), last.1)
    }
}

pub open spec fn index_forms(fs: Seq<(PluralForm, ValueV)>, t: Seq<Seq<char>>) -> (
    Seq<(PluralForm, ValueV)>,
    Seq<Seq<char>>,
)
    decreases fs, 1nat,
{
    if fs.len() == 0 {
        (Seq::empty(), t)
    } else {
        let prev = index_forms(fs.drop_last(), t);
        let last = index_value(fs.last().1, prev.1);
        (prev.0.push((fs.last().0, last.0)), last.1)
    }
}

proof fn lemma_push_str_index(t: Seq<Seq<char>>, s: Seq<char>, r: int)
    requires
        all_distinct(t),
        t.contains(s),
        0 <= r < t.len(),
        t[r] == s,
    ensures
        intern_index(t, s) == r,
{
    let i = choose|i: int| 0 <= i < t.len() && t[i] == s;
    assert(0 <= i < t.len() && t[i] == s);
    if i != r {
        if i < r {
            assert(t[i] != t[r]);
        } else {
            assert(t[r] != t[i]);
        }
    }
}

/// Places `s` in the table (see `intern`, `intern_index`).
fn intern_str(strings: &mut StringIndexer, s: &str) -> (res: usize)
    requires
        old(strings).wf(),
    ensures
        final(strings).wf(),
        final(strings)@ == intern(old(strings)@, s@),
        res == intern_index(old(strings)@, s@),
{
    let r = strings.push_str(s);
    proof {
        if old(strings)@.contains(s@) {
            lemma_push_str_index(old(strings)@, s@, r as int);
        }
    }
    r
}

impl Literal {
    /// Places a string literal's text in the table and records its index;
    /// other literals are left as they are.
    pub fn index_strings(&mut self, strings: &mut StringIndexer)
        requires
            old(strings).wf(),
        ensures
            final(strings).wf(),
            (final(self)@, final(strings)@) == index_literal(old(self)@, old(strings)@),
    {
        match self {
            Literal::String(s, index) => {
                *index = intern_str(strings, s.as_str());
            },
            _ => {},
        }
    }
}

fn indexed_literal(l: &Literal, strings: &mut StringIndexer) -> (res: Literal)
    requires
        old(strings).wf(),
    ensures
        final(strings).wf(),
        (res@, final(strings)@) == index_literal(l@, old(strings)@),
{
    let mut c = l.copy();
    c.index_strings(strings);
    c
}

fn indexed_attrs(a: &Vec<Attribute>, strings: &mut StringIndexer) -> (res: Vec<Attribute>)
    requires
        old(strings).wf(),
    ensures
        final(strings).wf(),
        (attrs_view(res@), final(strings)@) == index_attrs(attrs_view(a@), old(strings)@),
{
    let ghost av = attrs_view(a@);
    let ghost t0 = strings@;
    let mut out: Vec<Attribute> = Vec::new();
    let mut i: usize = 0;
    assert(av.take(0) =~= Seq::<AttributeV>::empty());
    assert(attrs_view(out@) =~= Seq::<AttributeV>::empty());
    while i < a.len()
        invariant
            av == attrs_view(a@),
            av.len() == a@.len(),
            i <= a@.len(),
            strings.wf(),
            index_attrs(av.take(i as int), t0) == (attrs_view(out@), strings@),
        decreases a@.len() - i,
    {
        let x = &a[i];
        proof {
            assert(av.take(i + 1).drop_last() =~= av.take(i as int));
            assert(av.take(i + 1).last() == x@);
        }
        let value = match &x.value {
            Some(AttributeValue::Literal(l)) => Some(AttributeValue::Literal(indexed_literal(l, strings))),
            Some(AttributeValue::Variable(k)) => Some(AttributeValue::Variable(k.copy())),
            None => None,
        };
        let ghost before = out@;
        out.push(Attribute { key: crate::text::to_owned(x.key.as_str()), value });
        assert(attrs_view(out@) =~= attrs_view(before).push(out@.last()@));
        i = i + 1;
    }
    assert(av.take(i as int) =~= av);
    out
}

fn indexed_bloc(vs: &Vec<ParsedValue>, strings: &mut StringIndexer, Ghost(parent): Ghost<ParsedValue>) -> (res: Vec<
    ParsedValue,
>)
    requires
        old(strings).wf(),
        parent == ParsedValue::Bloc(*vs),
    ensures
        final(strings).wf(),
        (view_values(res@), final(strings)@) == index_seq(view_values(vs@), old(strings)@),
    decreases parent, 0nat,
{
    let ghost vv = view_values(vs@);
    let ghost t0 = strings@;
    proof {
        lemma_view_values_len(vs@);
    }
    let mut out: Vec<ParsedValue> = Vec::new();
    let mut i: usize = 0;
    assert(vv.take(0) =~= Seq::<ValueV>::empty());
    assert(view_values(out@) =~= Seq::<ValueV>::empty());
    while i < vs.len()
        invariant
            parent == ParsedValue::Bloc(*vs),
            vv == view_values(vs@),
            vv.len() == vs@.len(),
            forall|j: int| 0 <= j < vs@.len() ==> #[trigger] vv[j] == view_value(vs@[j]),
            i <= vs@.len(),
            strings.wf(),
            index_seq(vv.take(i as int), t0) == (view_values(out@), strings@),
        decreases vs@.len() - i,
    {
        proof {
            assert(decreases_to!(parent => parent->Bloc_0));
            assert(decreases_to!(parent->Bloc_0 => parent->Bloc_0@));
            assert(decreases_to!(parent->Bloc_0@ => parent->Bloc_0@[i as int]));
            assert(vv.take(i + 1).drop_last() =~= vv.take(i as int));
            assert(vv.take(i + 1).last() == vv[i as int]);
        }
        let w = indexed(&vs[i], strings);
        let ghost before = out@;
        out.push(w);
        proof {
            assert(out@.drop_last() =~= before);
        }
        i = i + 1;
    }
    assert(vv.take(i as int) =~= vv);
    out
}

fn indexed_forms(
    fs: &Vec<(PluralForm, ParsedValue)>,
    strings: &mut StringIndexer,
    Ghost(parent): Ghost<ParsedValue>,
) -> (res: Vec<(PluralForm, ParsedValue)>)
    requires
        old(strings).wf(),
        parent matches ParsedValue::Plurals(p) && p.forms == *fs,
    ensures
        final(strings).wf(),
        (view_forms(res@), final(strings)@) == index_forms(view_forms(fs@), old(strings)@),
    decreases parent, 0nat,
{
    let ghost fv = view_forms(fs@);
    let ghost t0 = strings@;
    proof {
        lemma_view_forms_len(fs@);
    }
    let mut out: Vec<(PluralForm, ParsedValue)> = Vec::new();
    let mut i: usize = 0;
    assert(fv.take(0) =~= Seq::<(PluralForm, ValueV)>::empty());
    assert(view_forms(out@) =~= Seq::<(PluralForm, ValueV)>::empty());
    while i < fs.len()
        invariant
            parent matches ParsedValue::Plurals(p) && p.forms == *fs,
            fv == view_forms(fs@),
            fv.len() == fs@.len(),
            forall|j: int| 0 <= j < fs@.len() ==> #[trigger] fv[j] == (fs@[j].0, view_value(fs@[j].1)),
            i <= fs@.len(),
            strings.wf(),
            index_forms(fv.take(i as int), t0) == (view_forms(out@), strings@),
        decreases fs@.len() - i,
    {
        proof {
            assert(decreases_to!(parent => parent->Plurals_0));
            assert(decreases_to!(parent->Plurals_0 => parent->Plurals_0.forms));
            assert(decreases_to!(parent->Plurals_0.forms => parent->Plurals_0.forms@));
            assert(decreases_to!(parent->Plurals_0.forms@ => parent->Plurals_0.forms@[i as int]));
            assert(decreases_to!(parent->Plurals_0.forms@[i as int] => parent->Plurals_0.forms@[i as int].1));
            assert(fv.take(i + 1).drop_last() =~= fv.take(i as int));
            assert(fv.take(i + 1).last() == fv[i as int]);
        }
        let w = indexed(&fs[i].1, strings);
        let ghost before = out@;
        out.push((fs[i].0, w));
        proof {
            assert(out@.drop_last() =~= before);
        }
        i = i + 1;
    }
    assert(fv.take(i as int) =~= fv);
    out
}

/// A copy of `v` with its string literals placed in the table.
fn indexed(v: &ParsedValue, strings: &mut StringIndexer) -> (res: ParsedValue)
    requires
        old(strings).wf(),
    ensures
        final(strings).wf(),
        (res@, final(strings)@) == index_value(v@, old(strings)@),
    decreases v, 2nat,
{
    match v {
        ParsedValue::Literal(l) => ParsedValue::Literal(indexed_literal(l, strings)),
        ParsedValue::Component { key, inner, attributes } => {
            let new_inner = match inner {
                Some(b) => {
                    proof {
                        assert(decreases_to!(*v => (*v)->Component_inner));
                        assert(decreases_to!((*v)->Component_inner => (*v)->Component_inner->Some_0));
                    }
                    Some(Box::new(indexed(b, strings)))
                },
                None => None,
            };
            let new_attrs = indexed_attrs(attributes, strings);
            ParsedValue::Component { key: key.copy(), inner: new_inner, attributes: new_attrs }
        },
        ParsedValue::Bloc(vs) => ParsedValue::Bloc(indexed_bloc(vs, strings, Ghost(*v))),
        ParsedValue::Plurals(p) => {
            let forms = indexed_forms(&p.forms, strings, Ghost(*v));
            proof {
                assert(decreases_to!(*v => (*v)->Plurals_0));
                assert(decreases_to!((*v)->Plurals_0 => (*v)->Plurals_0.other));
            }
            let other = indexed(&p.other, strings);
            ParsedValue::Plurals(
                Plurals { rule_type: p.rule_type, count_key: p.count_key.copy(), other: Box::new(other), forms },
            )
        },
        _ => v.copy(),
    }
}

impl ParsedValue {
    /// Places every string literal of the value in the table and records
    /// its index (see `index_value`).
    pub fn index_strings(&mut self, strings: &mut StringIndexer)
        requires
            old(strings).wf(),
        ensures
            final(strings).wf(),
            (final(self)@, final(strings)@) == index_value(old(self)@, old(strings)@),
    {
        let n = indexed(self, strings);
        *self = n;
    }
}

/// Every string literal of the value records the place of its text in the
/// table.
pub open spec fn literal_indexed(l: LiteralV, t: Seq<Seq<char>>) -> bool {
    match l {
        LiteralV::String(s, i) => i < t.len() && t[i as int] == s,
        _ => true,
    }
}

pub open spec fn attrs_indexed(a: Seq<AttributeV>, t: Seq<Seq<char>>) -> bool {
    forall|j: int|
        0 <= j < a.len() ==> match #[trigger] a[j].value {
            Some(AttributeValueV::Literal(l)) => literal_indexed(l, t),
            _ => true,
        }
}

pub open spec fn literals_indexed(v: ValueV, t: Seq<Seq<char>>) -> bool
    decreases v,
{
    match v {
        ValueV::Literal(l) => literal_indexed(l, t),
        ValueV::Component(_, inner, attrs) => attrs_indexed(attrs, t) && match inner {
            Some(b) => literals_indexed(*b, t),
            None => true,
        },
        ValueV::Bloc(vs) => forall|j: int| 0 <= j < vs.len() ==> literals_indexed(#[trigger] vs[j], t),
        ValueV::Plurals(p) => literals_indexed(*p.other, t) && forall|j: int|
            0 <= j < p.forms.len() ==> literals_indexed(#[trigger] p.forms[j].1, t),
        _ => true,
    }
}

proof fn lemma_intern(t: Seq<Seq<char>>, s: Seq<char>)
    requires
        all_distinct(t),
    ensures
        all_distinct(intern(t, s)),
        t.is_prefix_of(intern(t, s)),
        0 <= intern_index(t, s) < intern(t, s).len(),
        intern(t, s)[intern_index(t, s)] == s,
{
    if t.contains(s) {
        let i = choose|i: int| 0 <= i < t.len() && t[i] == s;
        assert(0 <= i < t.len() && t[i] == s);
    } else {
        assert(intern(t, s)[t.len() as int] == s);
    }
}

proof fn lemma_literal_grows(l: LiteralV, t1: Seq<Seq<char>>, t2: Seq<Seq<char>>)
    requires
        literal_indexed(l, t1),
        t1.is_prefix_of(t2),
    ensures
        literal_indexed(l, t2),
{
    match l {
        LiteralV::String(s, i) => {
            assert(t2.subrange(0, t1.len() as int)[i as int] == t2[i as int]);
        },
        _ => {},
    }
}

proof fn lemma_attrs_grow(a: Seq<AttributeV>, t1: Seq<Seq<char>>, t2: Seq<Seq<char>>)
    requires
        attrs_indexed(a, t1),
        t1.is_prefix_of(t2),
    ensures
        attrs_indexed(a, t2),
{
    assert forall|j: int| 0 <= j < a.len() implies match #[trigger] a[j].value {
        Some(AttributeValueV::Literal(l)) => literal_indexed(l, t2),
        _ => true,
    } by {
        match a[j].value {
            Some(AttributeValueV::Literal(l)) => lemma_literal_grows(l, t1, t2),
            _ => {},
        }
    }
}

proof fn lemma_indexed_grows(v: ValueV, t1: Seq<Seq<char>>, t2: Seq<Seq<char>>)
    requires
        literals_indexed(v, t1),
        t1.is_prefix_of(t2),
    ensures
        literals_indexed(v, t2),
    decreases v,
{
    match v {
        ValueV::Literal(l) => lemma_literal_grows(l, t1, t2),
        ValueV::Component(_, inner, attrs) => {
            lemma_attrs_grow(attrs, t1, t2);
            match inner {
                Some(b) => lemma_indexed_grows(*b, t1, t2),
                None => {},
            }
        },
        ValueV::Bloc(vs) => {
            assert forall|j: int| 0 <= j < vs.len() implies literals_indexed(#[trigger] vs[j], t2) by {
                lemma_indexed_grows(vs[j], t1, t2);
            }
        },
        ValueV::Plurals(p) => {
            lemma_indexed_grows(*p.other, t1, t2);
            assert forall|j: int| 0 <= j < p.forms.len() implies literals_indexed(#[trigger] p.forms[j].1, t2) by {
                lemma_indexed_grows(p.forms[j].1, t1, t2);
            }
        },
        _ => {},
    }
}

proof fn lemma_prefix_trans(a: Seq<Seq<char>>, b: Seq<Seq<char>>, c: Seq<Seq<char>>)
    requires
        a.is_prefix_of(b),
        b.is_prefix_of(c),
    ensures
        a.is_prefix_of(c),
{
    assert forall|i: int| 0 <= i < a.len() implies a[i] == c[i] by {
        assert(b.subrange(0, a.len() as int)[i] == b[i]);
        assert(c.subrange(0, b.len() as int)[i] == c[i]);
    }
    assert(a =~= c.subrange(0, a.len() as int));
}

// The table only grows, each text once.

proof fn lemma_grow_attrs(a: Seq<AttributeV>, t: Seq<Seq<char>>)
    requires
        all_distinct(t),
    ensures
        all_distinct(index_attrs(a, t).1),
        t.is_prefix_of(index_attrs(a, t).1),
        index_attrs(a, t).0.len() == a.len(),
    decreases a.len(),
{
    if a.len() > 0 {
        lemma_grow_attrs(a.drop_last(), t);
        let prev = index_attrs(a.drop_last(), t);
        match a.last().value {
            Some(AttributeValueV::Literal(l)) => match l {
                LiteralV::String(s, _) => {
                    lemma_intern(prev.1, s);
                    lemma_prefix_trans(t, prev.1, intern(prev.1, s));
                },
                _ => {},
            },
            _ => {},
        }
    }
}

proof fn lemma_grow_seq(vs: Seq<ValueV>, t: Seq<Seq<char>>)
    requires
        all_distinct(t),
    ensures
        all_distinct(index_seq(vs, t).1),
        t.is_prefix_of(index_seq(vs, t).1),
        index_seq(vs, t).0.len() == vs.len(),
    decreases vs, 0nat,
{
    if vs.len() > 0 {
        lemma_grow_seq(vs.drop_last(), t);
        let prev = index_seq(vs.drop_last(), t);
        assert(decreases_to!(vs => vs[vs.len() - 1]));
        lemma_grow_value(vs.last(), prev.1);
        lemma_prefix_trans(t, prev.1, index_value(vs.last(), prev.1).1);
    }
}

proof fn lemma_grow_forms(fs: Seq<(PluralForm, ValueV)>, t: Seq<Seq<char>>)
    requires
        all_distinct(t),
    ensures
        all_distinct(index_forms(fs, t).1),
        t.is_prefix_of(index_forms(fs, t).1),
        index_forms(fs, t).0.len() == fs.len(),
    decreases fs, 0nat,
{
    if fs.len() > 0 {
        lemma_grow_forms(fs.drop_last(), t);
        let prev = index_forms(fs.drop_last(), t);
        assert(decreases_to!(fs => fs[fs.len() - 1]));
        assert(decreases_to!(fs[fs.len() - 1] => fs[fs.len() - 1].1));
        lemma_grow_value(fs.last().1, prev.1);
        lemma_prefix_trans(t, prev.1, index_value(fs.last().1, prev.1).1);
    }
}

proof fn lemma_grow_value(v: ValueV, t: Seq<Seq<char>>)
    requires
        all_distinct(t),
    ensures
        all_distinct(index_value(v, t).1),
        t.is_prefix_of(index_value(v, t).1),
    decreases v, 1nat,
{
    match v {
        ValueV::Literal(l) => match l {
            LiteralV::String(s, _) => lemma_intern(t, s),
            _ => {},
        },
        ValueV::Component(k, inner, attrs) => match inner {
            Some(b) => {
                lemma_grow_value(*b, t);
                let x = index_value(*b, t);
                lemma_grow_attrs(attrs, x.1);
                lemma_prefix_trans(t, x.1, index_attrs(attrs, x.1).1);
            },
            None => lemma_grow_attrs(attrs, t),
        },
        ValueV::Bloc(vs) => lemma_grow_seq(vs, t),
        ValueV::Plurals(p) => {
            lemma_grow_forms(p.forms, t);
            let f = index_forms(p.forms, t);
            lemma_grow_value(*p.other, f.1);
            lemma_prefix_trans(t, f.1, index_value(*p.other, f.1).1);
        },
        _ => {},
    }
}

// Every literal records its place, while the table fits the machine.

proof fn lemma_places_attrs(a: Seq<AttributeV>, t: Seq<Seq<char>>)
    requires
        all_distinct(t),
        index_attrs(a, t).1.len() <= usize::MAX,
    ensures
        attrs_indexed(index_attrs(a, t).0, index_attrs(a, t).1),
    decreases a.len(),
{
    if a.len() > 0 {
        lemma_grow_attrs(a.drop_last(), t);
        let prev = index_attrs(a.drop_last(), t);
        let last = index_attr(a.last(), prev.1);
        match a.last().value {
            Some(AttributeValueV::Literal(l)) => match l {
                LiteralV::String(s, _) => {
                    lemma_intern(prev.1, s);
                    let i = intern_index(prev.1, s);
                    assert((i as usize) as int == i);
                },
                _ => {},
            },
            _ => {},
        }
        assert(prev.1.is_prefix_of(last.1));
        lemma_places_attrs(a.drop_last(), t);
        lemma_attrs_grow(prev.0, prev.1, last.1);
        let r = prev.0.push(last.0);
        assert forall|j: int| 0 <= j < r.len() implies match #[trigger] r[j].value {
            Some(AttributeValueV::Literal(l)) => literal_indexed(l, last.1),
            _ => true,
        } by {
            if j < prev.0.len() {
                assert(r[j] == prev.0[j]);
            }
        }
    }
}

proof fn lemma_places_seq(vs: Seq<ValueV>, t: Seq<Seq<char>>)
    requires
        all_distinct(t),
        index_seq(vs, t).1.len() <= usize::MAX,
    ensures
        forall|j: int| 0 <= j < vs.len() ==> literals_indexed(#[trigger] index_seq(vs, t).0[j], index_seq(vs, t).1),
    decreases vs, 0nat,
{
    if vs.len() > 0 {
        lemma_grow_seq(vs.drop_last(), t);
        let prev = index_seq(vs.drop_last(), t);
        assert(decreases_to!(vs => vs[vs.len() - 1]));
        lemma_grow_value(vs.last(), prev.1);
        let last = index_value(vs.last(), prev.1);
        lemma_places_seq(vs.drop_last(), t);
        lemma_places_value(vs.last(), prev.1);
        let r = prev.0.push(last.0);
        assert forall|j: int| 0 <= j < vs.len() implies literals_indexed(#[trigger] r[j], last.1) by {
            if j < prev.0.len() {
                assert(r[j] == prev.0[j]);
                lemma_indexed_grows(prev.0[j], prev.1, last.1);
            }
        }
    }
}

proof fn lemma_places_forms(fs: Seq<(PluralForm, ValueV)>, t: Seq<Seq<char>>)
    requires
        all_distinct(t),
        index_forms(fs, t).1.len() <= usize::MAX,
    ensures
        forall|j: int|
            0 <= j < fs.len() ==> literals_indexed(#[trigger] index_forms(fs, t).0[j].1, index_forms(fs, t).1),
    decreases fs, 0nat,
{
    if fs.len() > 0 {
        lemma_grow_forms(fs.drop_last(), t);
        let prev = index_forms(fs.drop_last(), t);
        assert(decreases_to!(fs => fs[fs.len() - 1]));
        assert(decreases_to!(fs[fs.len() - 1] => fs[fs.len() - 1].1));
        lemma_grow_value(fs.last().1, prev.1);
        let last = index_value(fs.last().1, prev.1);
        lemma_places_forms(fs.drop_last(), t);
        lemma_places_value(fs.last().1, prev.1);
        let r = prev.0.push((fs.last().0, last.0));
        assert forall|j: int| 0 <= j < fs.len() implies literals_indexed(#[trigger] r[j].1, last.1) by {
            if j < prev.0.len() {
                assert(r[j] == prev.0[j]);
                lemma_indexed_grows(prev.0[j].1, prev.1, last.1);
            }
        }
    }
}

proof fn lemma_places_value(v: ValueV, t: Seq<Seq<char>>)
    requires
        all_distinct(t),
        index_value(v, t).1.len() <= usize::MAX,
    ensures
        literals_indexed(index_value(v, t).0, index_value(v, t).1),
    decreases v, 1nat,
{
    match v {
        ValueV::Literal(l) => match l {
            LiteralV::String(s, _) => {
                lemma_intern(t, s);
                let i = intern_index(t, s);
                assert(0 <= i < usize::MAX);
                assert((i as usize) as int == i);
            },
            _ => {},
        },
        ValueV::Component(k, inner, attrs) => match inner {
            Some(b) => {
                lemma_grow_value(*b, t);
                let x = index_value(*b, t);
                lemma_grow_attrs(attrs, x.1);
                lemma_places_value(*b, t);
                lemma_places_attrs(attrs, x.1);
                lemma_indexed_grows(x.0, x.1, index_attrs(attrs, x.1).1);
            },
            None => lemma_places_attrs(attrs, t),
        },
        ValueV::Bloc(vs) => {
            lemma_grow_seq(vs, t);
            lemma_places_seq(vs, t);
        },
        ValueV::Plurals(p) => {
            lemma_grow_forms(p.forms, t);
            let f = index_forms(p.forms, t);
            lemma_grow_value(*p.other, f.1);
            let o = index_value(*p.other, f.1);
            lemma_places_forms(p.forms, t);
            lemma_places_value(*p.other, f.1);
            assert forall|j: int| 0 <= j < f.0.len() implies literals_indexed(#[trigger] f.0[j].1, o.1) by {
                lemma_indexed_grows(f.0[j].1, f.1, o.1);
            }
        },
        _ => {},
    }
}

/// Indexing a value's strings keeps the table's earlier entries in place and
/// each text once, and (while the table fits the machine) leaves every
/// string literal of the value recording the place of its text in the table.
pub proof fn law_index_strings_places_literals(v: ValueV, t: Seq<Seq<char>>)
    requires
        all_distinct(t),
    ensures
        all_distinct(index_value(v, t).1),
        t.is_prefix_of(index_value(v, t).1),
        index_value(v, t).1.len() <= usize::MAX ==> literals_indexed(index_value(v, t).0, index_value(v, t).1),
{
    lemma_grow_value(v, t);
    if index_value(v, t).1.len() <= usize::MAX {
        lemma_places_value(v, t);
    }
}

} // verus!
