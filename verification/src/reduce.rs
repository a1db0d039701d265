//! Simplification of parsed values before code generation: foreign keys
//! replaced by what they resolved to, blocs flattened, adjacent literals
//! joined, empty strings and placeholders dropped.

use vstd::prelude::*;
use crate::num::{dec_int, dec_nat, push_i64, push_u64};
use crate::plurals::PluralForm;

use crate::value::{lemma_view_forms_len, FkV, ForeignKey, Literal, LiteralType, LiteralV, ParsedValue, Plurals, PluralsV, ValueV, lemma_view_values_len, lemma_view_values_push, view_forms, view_value, view_values};

verus! {

/// `true` or `false`.
pub open spec fn bool_text(b: bool) -> Seq<char> {
    if b {
        "true"@
    } else {
        "false"@
    }
}

/// The text of a literal, as `Display` writes it.
pub open spec fn literal_text(l: LiteralV) -> Seq<char> {
    match l {
        LiteralV::String(s, _) => s,
        LiteralV::Signed(v) => dec_int(v as int),
        LiteralV::Unsigned(v) => dec_nat(v as nat),
        LiteralV::Float(t) => t,
        LiteralV::Bool(b) => bool_text(b),
    }
}

/// `a` followed by `b`: a string keeps its index, any other literal becomes
/// a string without one.
pub open spec fn spec_join(a: LiteralV, b: LiteralV) -> LiteralV {
    match a {
        LiteralV::String(s, i) => LiteralV::String(s + literal_text(b), i),
        _ => LiteralV::String(literal_text(a) + literal_text(b), usize::MAX),
    }
}

/// The type of a literal.
pub open spec fn literal_type(l: LiteralV) -> LiteralType {
    match l {
        LiteralV::String(_, _) => LiteralType::String,
        LiteralV::Signed(_) => LiteralType::Signed,
        LiteralV::Unsigned(_) => LiteralType::Unsigned,
        LiteralV::Float(_) => LiteralType::Float,
        LiteralV::Bool(_) => LiteralType::Bool,
    }
}

fn push_literal_text(s: &mut String, l: &Literal)
    ensures
        final(s)@ == old(s)@ + literal_text(l@),
{
    match l {
        Literal::String(t, _) => s.append(t.as_str()),
        Literal::Signed(v) => push_i64(s, *v),
        Literal::Unsigned(v) => push_u64(s, *v),
        Literal::Float(t) => s.append(t.as_str()),
        Literal::Bool(b) => {
            proof {
                reveal_strlit("true");
                reveal_strlit("false");
            }
            if *b {
                s.append("true");
            } else {
                s.append("false");
            }
        },
    }
}

impl Literal {
    /// The string, if this is a string literal.
    pub fn is_string(&self) -> (res: Option<&str>)
        ensures
            match self@ {
                LiteralV::String(s, _) => res matches Some(r) && r@ == s,
                _ => res is None,
            },
    {
        match self {
            Literal::String(s, _) => Some(s.as_str()),
            _ => None,
        }
    }

    /// The type of this literal.
    pub fn get_type(&self) -> (res: LiteralType)
        ensures
            res == literal_type(self@),
    {
        match self {
            Literal::String(_, _) => LiteralType::String,
            Literal::Signed(_) => LiteralType::Signed,
            Literal::Unsigned(_) => LiteralType::Unsigned,
            Literal::Float(_) => LiteralType::Float,
            Literal::Bool(_) => LiteralType::Bool,
        }
    }

    /// Appends the text of `other` (see `spec_join`).
    pub fn join(&mut self, other: &Literal)
        ensures
            final(self)@ == spec_join(old(self)@, other@),
    {
        match self {
            Literal::String(s, _) => {
                push_literal_text(s, other);
            },
            _ => {
                let mut s = String::new();
                push_literal_text(&mut s, self);
                push_literal_text(&mut s, other);
                *self = Literal::String(s, usize::MAX);
            },
        }
    }
}

/// Every foreign key in the value is resolved.
pub open spec fn fk_resolved(v: ValueV) -> bool
    decreases v,
{
    match v {
        ValueV::ForeignKey(FkV::NotSet(_, _)) => false,
        ValueV::ForeignKey(FkV::Resolved(b)) => fk_resolved(*b),
        ValueV::Component(_, Some(b), _) => fk_resolved(*b),
        ValueV::Bloc(vs) => fk_resolved_seq(vs),
        ValueV::Plurals(p) => fk_resolved_forms(p.forms) && fk_resolved(*p.other),
        ValueV::Subkeys(es) => fk_resolved_entries(es),
        _ => true,
    }
}

pub open spec fn fk_resolved_entries(es: Seq<(Seq<char>, ValueV)>) -> bool
    decreases es,
{
    if es.len() == 0 {
        true
    } else {
        fk_resolved_entries(es.drop_last()) && fk_resolved(es.last().1)
    }
}

pub open spec fn fk_resolved_seq(vs: Seq<ValueV>) -> bool
    decreases vs,
{
    if vs.len() == 0 {
        true
    } else {
        fk_resolved_seq(vs.drop_last()) && fk_resolved(vs.last())
    }
}

pub open spec fn fk_resolved_forms(fs: Seq<(PluralForm, ValueV)>) -> bool
    decreases fs,
{
    if fs.len() == 0 {
        true
    } else {
        fk_resolved_forms(fs.drop_last()) && fk_resolved(fs.last().1)
    }
}

/// The value that stands for an empty translation: the empty string.
pub open spec fn empty_string_value() -> ValueV {
    ValueV::Literal(LiteralV::String(Seq::empty(), usize::MAX))
}

/// A value simplified: foreign keys replaced by their simplified targets,
/// components and plural forms simplified inside, a bloc flattened (see
/// `spec_reduce_into_seq`) and then unwrapped when it holds one value or
/// replaced by the empty string when it holds none.
pub open spec fn spec_reduce(v: ValueV) -> ValueV
    decreases v, 0nat,
{
    match v {
        ValueV::ForeignKey(FkV::Resolved(b)) => spec_reduce(*b),
        ValueV::Component(k, inner, attrs) => ValueV::Component(
            k,
            match inner {
                Some(b) => Some(Box::new(spec_reduce(*b))),
                None => None,
            },
            attrs,
        ),
        ValueV::Bloc(vs) => {
            let out = spec_reduce_into_seq(vs, Seq::empty());
            if out.len() == 0 {
                empty_string_value()
            } else if out.len() == 1 {
                out[0]
            } else {
                ValueV::Bloc(out)
            }
        },
        ValueV::Plurals(p) => ValueV::Plurals(
            PluralsV {
                rule_type: p.rule_type,
                count_key: p.count_key,
                other: Box::new(spec_reduce(*p.other)),
                forms: spec_reduce_forms(p.forms),
            },
        ),
        _ => v,
    }
}

pub open spec fn spec_reduce_forms(fs: Seq<(PluralForm, ValueV)>) -> Seq<(PluralForm, ValueV)>
    decreases fs, 0nat,
{
    if fs.len() == 0 {
        Seq::empty()
    } else {
        spec_reduce_forms(fs.drop_last()).push((fs.last().0, spec_reduce(fs.last().1)))
    }
}

/// `bloc` after adding the simplified pieces of `v`: defaults and
/// placeholders are dropped, an empty string too, a literal is joined to a
/// literal that ends the bloc, a bloc adds its pieces one by one, a foreign
/// key those of its target, and any other value is simplified and pushed.
pub open spec fn spec_reduce_into(v: ValueV, bloc: Seq<ValueV>) -> Seq<ValueV>
    decreases v, 1nat,
{
    match v {
        ValueV::Default => bloc,
        ValueV::Dummy(_) => bloc,
        ValueV::Subkeys(_) => bloc,
        ValueV::ForeignKey(FkV::Resolved(b)) => spec_reduce_into(*b, bloc),
        ValueV::ForeignKey(FkV::NotSet(_, _)) => bloc,
        ValueV::Literal(l) => if l matches LiteralV::String(s, _) && s.len() == 0 {
            bloc
        } else if bloc.len() > 0 && bloc.last() is Literal {
            bloc.update(bloc.len() - 1, ValueV::Literal(spec_join(bloc.last()->Literal_0, l)))
        } else {
            bloc.push(ValueV::Literal(l))
        },
        ValueV::Bloc(vs) => spec_reduce_into_seq(vs, bloc),
        _ => bloc.push(spec_reduce(v)),
    }
}

pub open spec fn spec_reduce_into_seq(vs: Seq<ValueV>, bloc: Seq<ValueV>) -> Seq<ValueV>
    decreases vs, 1nat,
{
    if vs.len() == 0 {
        bloc
    } else {
        spec_reduce_into(vs.last(), spec_reduce_into_seq(vs.drop_last(), bloc))
    }
}

proof fn lemma_fk_resolved_seq(vs: Seq<ValueV>)
    requires
        fk_resolved_seq(vs),
    ensures
        forall|i: int| 0 <= i < vs.len() ==> fk_resolved(#[trigger] vs[i]),
    decreases vs.len(),
{
    if vs.len() > 0 {
        lemma_fk_resolved_seq(vs.drop_last());
        assert forall|i: int| 0 <= i < vs.len() implies fk_resolved(#[trigger] vs[i]) by {
            if i < vs.len() - 1 {
                assert(vs.drop_last()[i] == vs[i]);
            }
        }
    }
}

proof fn lemma_fk_resolved_forms(fs: Seq<(PluralForm, ValueV)>)
    requires
        fk_resolved_forms(fs),
    ensures
        forall|i: int| 0 <= i < fs.len() ==> fk_resolved(#[trigger] fs[i].1),
    decreases fs.len(),
{
    if fs.len() > 0 {
        lemma_fk_resolved_forms(fs.drop_last());
        assert forall|i: int| 0 <= i < fs.len() implies fk_resolved(#[trigger] fs[i].1) by {
            if i < fs.len() - 1 {
                assert(fs.drop_last()[i] == fs[i]);
            }
        }
    }
}

impl Default for ParsedValue {
    fn default() -> (res: ParsedValue)
        ensures
            res@ == empty_string_value(),
    {
        let s = String::new();
        ParsedValue::Literal(Literal::String(s, usize::MAX))
    }
}

/// `v` simplified (see `spec_reduce`).
pub fn reduced(v: ParsedValue) -> (res: ParsedValue)
    requires
        fk_resolved(v@),
    ensures
        res@ == spec_reduce(v@),
    decreases v, 1nat,
{
    let ghost gv = v;
    match v {
        ParsedValue::ForeignKey(fk) => match fk {
            ForeignKey::Resolved(b) => {
                proof {
                    assert(decreases_to!(gv => gv->ForeignKey_0));
                    assert(decreases_to!(gv->ForeignKey_0 => gv->ForeignKey_0->Resolved_0));
                }
                reduced(*b)
            },
            ForeignKey::NotSet(kp, args) => {
                proof {
                    assert(false);
                }
                ParsedValue::ForeignKey(ForeignKey::NotSet(kp, args))
            },
        },
        ParsedValue::Component { key, inner, attributes } => {
            let inner = match inner {
                Some(b) => {
                    proof {
                        assert(decreases_to!(gv => gv->Component_inner));
                        assert(decreases_to!(gv->Component_inner => gv->Component_inner->Some_0));
                    }
                    Some(Box::new(reduced(*b)))
                },
                None => None,
            };
            ParsedValue::Component { key, inner, attributes }
        },
        ParsedValue::Bloc(vs) => {
            let ghost vv = view_values(vs@);
            let mut out: Vec<ParsedValue> = Vec::new();
            assert(view_values(out@) =~= Seq::<ValueV>::empty());
            reduce_seq_into(vs, &mut out, Ghost(gv));
            proof {
                lemma_view_values_len(out@);
            }
            let n = out.len();
            if n == 0 {
                ParsedValue::default()
            } else if n == 1 {
                out.pop().unwrap()
            } else {
                ParsedValue::Bloc(out)
            }
        },
        ParsedValue::Plurals(p) => {
            let Plurals { rule_type, count_key, other, forms } = p;
            proof {
                assert(decreases_to!(gv => gv->Plurals_0));
                assert(decreases_to!(gv->Plurals_0 => gv->Plurals_0.other));
            }
            let other = reduced(*other);
            let forms = reduce_forms(forms, Ghost(gv));
            ParsedValue::Plurals(Plurals { rule_type, count_key, other: Box::new(other), forms })
        },
        other => other,
    }
}

fn reduce_forms(forms: Vec<(PluralForm, ParsedValue)>, Ghost(parent): Ghost<ParsedValue>) -> (res: Vec<(PluralForm, ParsedValue)>)
    requires
        parent matches ParsedValue::Plurals(p) && p.forms == forms,
        fk_resolved(parent@),
    ensures
        view_forms(res@) == spec_reduce_forms(view_forms(forms@)),
    decreases parent, 0nat,
{
    let ghost fv = view_forms(forms@);
    let ghost orig = forms@;
    proof {
        lemma_view_forms_len(forms@);
        lemma_fk_resolved_forms(fv);
    }
    let mut forms = forms;
    let mut out: Vec<(PluralForm, ParsedValue)> = Vec::new();
    let mut i: usize = 0;
    let n = forms.len();
    assert(view_forms(out@) =~= spec_reduce_forms(fv.take(0)));
    while forms.len() > 0
        invariant
            n == orig.len(),
            fv == view_forms(orig),
            fv.len() == n,
            forall|j: int| 0 <= j < n ==> #[trigger] fv[j] == (orig[j].0, view_value(orig[j].1)),
            forall|j: int| 0 <= j < n ==> fk_resolved(#[trigger] fv[j].1),
            parent matches ParsedValue::Plurals(p) && p.forms@ == orig,
            i + forms@.len() == n,
            forms@ == orig.skip(i as int),
            view_forms(out@) == spec_reduce_forms(fv.take(i as int)),
        decreases forms@.len(),
    {
        let (f, v) = forms.remove(0);
        assert(orig.skip(i as int)[0] == orig[i as int]);
        assert(fv[i as int] == (orig[i as int].0, view_value(orig[i as int].1)));
        assert(fk_resolved(fv[i as int].1));
        assert(v == orig[i as int].1);
        assert(forms@ =~= orig.skip(i + 1));
        proof {
            assert(decreases_to!(parent => parent->Plurals_0));
            assert(decreases_to!(parent->Plurals_0 => parent->Plurals_0.forms));
            assert(decreases_to!(parent->Plurals_0.forms => parent->Plurals_0.forms@));
            assert(decreases_to!(parent->Plurals_0.forms@ => parent->Plurals_0.forms@[i as int]));
            assert(decreases_to!(parent->Plurals_0.forms@[i as int] => parent->Plurals_0.forms@[i as int].1));
        }
        let r = reduced(v);
        let ghost before = out@;
        out.push((f, r));
        proof {
            assert(view_forms(out@) == view_forms(before).push((f, r@))) by {
                assert(out@.drop_last() =~= before);
            }
            assert(fv.take(i + 1).drop_last() =~= fv.take(i as int));
            assert(fv.take(i + 1).last() == fv[i as int]);
        }
        i = i + 1;
    }
    assert(fv.take(i as int) =~= fv);
    out
}

fn reduce_seq_into(vs: Vec<ParsedValue>, bloc: &mut Vec<ParsedValue>, Ghost(parent): Ghost<ParsedValue>)
    requires
        parent matches ParsedValue::Bloc(w) && w == vs,
        fk_resolved(parent@),
    ensures
        view_values(final(bloc)@) == spec_reduce_into_seq(view_values(vs@), view_values(old(bloc)@)),
    decreases parent, 0nat,
{
    let ghost vv = view_values(vs@);
    let ghost orig = vs@;
    let ghost b0 = view_values(bloc@);
    proof {
        lemma_view_values_len(vs@);
        lemma_fk_resolved_seq(vv);
    }
    let mut vs = vs;
    let mut i: usize = 0;
    let n = vs.len();
    assert(vv.take(0) =~= Seq::<ValueV>::empty());
    while vs.len() > 0
        invariant
            n == orig.len(),
            vv == view_values(orig),
            vv.len() == n,
            forall|j: int| 0 <= j < n ==> #[trigger] vv[j] == view_value(orig[j]),
            forall|j: int| 0 <= j < n ==> fk_resolved(#[trigger] vv[j]),
            parent matches ParsedValue::Bloc(w) && w@ == orig,
            i + vs@.len() == n,
            vs@ == orig.skip(i as int),
            b0 == view_values(old(bloc)@),
            view_values(bloc@) == spec_reduce_into_seq(vv.take(i as int), b0),
        decreases vs@.len(),
    {
        let v = vs.remove(0);
        assert(orig.skip(i as int)[0] == orig[i as int]);
        assert(vv[i as int] == view_value(orig[i as int]));
        assert(fk_resolved(vv[i as int]));
        assert(v == orig[i as int]);
        assert(vs@ =~= orig.skip(i + 1));
        proof {
            assert(decreases_to!(parent => parent->Bloc_0));
            assert(decreases_to!(parent->Bloc_0 => parent->Bloc_0@));
            assert(decreases_to!(parent->Bloc_0@ => parent->Bloc_0@[i as int]));
        }
        reduce_into(v, bloc);
        proof {
            assert(vv.take(i + 1).drop_last() =~= vv.take(i as int));
            assert(vv.take(i + 1).last() == vv[i as int]);
        }
        i = i + 1;
    }
    assert(vv.take(i as int) =~= vv);
}

/// Adds the simplified pieces of `v` to `bloc` (see `spec_reduce_into`).
pub fn reduce_into(v: ParsedValue, bloc: &mut Vec<ParsedValue>)
    requires
        fk_resolved(v@),
    ensures
        view_values(final(bloc)@) == spec_reduce_into(v@, view_values(old(bloc)@)),
    decreases v, 2nat,
{
    let ghost gv = v;
    let ghost b0 = bloc@;
    proof {
        lemma_view_values_len(bloc@);
    }
    match v {
        ParsedValue::Default => {},
        ParsedValue::Dummy(_) => {},
        ParsedValue::Subkeys(_) => {},
        ParsedValue::ForeignKey(fk) => match fk {
            ForeignKey::Resolved(b) => {
                proof {
                    assert(decreases_to!(gv => gv->ForeignKey_0));
                    assert(decreases_to!(gv->ForeignKey_0 => gv->ForeignKey_0->Resolved_0));
                }
                reduce_into(*b, bloc)
            },
            ForeignKey::NotSet(_, _) => {},
        },
        ParsedValue::Literal(l) => {
            let empty = match &l {
                Literal::String(s, _) => s.unicode_len() == 0,
                _ => false,
            };
            if empty {
                return;
            }
            let n = bloc.len();
            if n > 0 {
                let last = bloc.pop().unwrap();
                match last {
                    ParsedValue::Literal(mut last_lit) => {
                        last_lit.join(&l);
                        bloc.push(ParsedValue::Literal(last_lit));
                        proof {
                            assert(bloc@ =~= b0.update(n - 1, ParsedValue::Literal(last_lit)));
                            lemma_view_values_len(bloc@);
                            assert(view_values(bloc@) =~= view_values(b0).update(
                                n - 1,
                                ValueV::Literal(last_lit@),
                            ));
                        }
                    },
                    other => {
                        bloc.push(other);
                        assert(bloc@ =~= b0);
                        bloc.push(ParsedValue::Literal(l));
                        proof {
                            lemma_view_values_push(b0, ParsedValue::Literal(l));
                        }
                    },
                }
            } else {
                bloc.push(ParsedValue::Literal(l));
                proof {
                    lemma_view_values_push(b0, ParsedValue::Literal(l));
                }
            }
        },
        ParsedValue::Bloc(inner) => {
            reduce_seq_into(inner, bloc, Ghost(gv));
        },
        other => {
            let r = reduced(other);
            bloc.push(r);
            proof {
                lemma_view_values_push(b0, r);
            }
        },
    }
}

impl ParsedValue {
    /// Simplifies the value in place (see `spec_reduce`); its foreign keys
    /// must all be resolved.
    pub fn reduce(&mut self)
        requires
            fk_resolved(old(self)@),
        ensures
            final(self)@ == spec_reduce(old(self)@),
    {
        let mut v = ParsedValue::Default;
        std::mem::swap(self, &mut v);
        *self = reduced(v);
    }
}

/// A piece that may stand in a simplified bloc.
pub open spec fn flat_piece(v: ValueV) -> bool {
    v is Literal || v is Variable || v is Component || v is Plurals
}

/// A simplified bloc: only literals, variables, components and plurals,
/// and never two literals side by side.
pub open spec fn is_flat(b: Seq<ValueV>) -> bool {
    &&& forall|i: int| 0 <= i < b.len() ==> flat_piece(#[trigger] b[i])
    &&& forall|i: int| 1 <= i < b.len() ==> !(#[trigger] b[i - 1] is Literal && b[i] is Literal)
}

/// Adding the pieces of any value to a simplified bloc leaves it
/// simplified: no nested bloc, no default, placeholder or foreign key, and
/// no two adjacent literals.
pub proof fn law_reduce_into_keeps_flat(v: ValueV, bloc: Seq<ValueV>)
    requires
        is_flat(bloc),
    ensures
        is_flat(spec_reduce_into(v, bloc)),
    decreases v, 1nat,
{
    match v {
        ValueV::ForeignKey(FkV::Resolved(b)) => law_reduce_into_keeps_flat(*b, bloc),
        ValueV::Bloc(vs) => law_reduce_into_seq_keeps_flat(vs, bloc),
        ValueV::Literal(l) => {
            let r = spec_reduce_into(v, bloc);
            if l matches LiteralV::String(s, _) && s.len() == 0 {
            } else if bloc.len() > 0 && bloc.last() is Literal {
                assert forall|i: int| 1 <= i < r.len() implies !(#[trigger] r[i - 1] is Literal && r[i] is Literal) by {
                    if i < r.len() - 1 {
                        assert(r[i - 1] == bloc[i - 1]);
                        assert(r[i] == bloc[i]);
                    } else {
                        assert(r[i - 1] == bloc[i - 1]);
                    }
                }
            } else {
                assert forall|i: int| 1 <= i < r.len() implies !(#[trigger] r[i - 1] is Literal && r[i] is Literal) by {
                    if i < r.len() - 1 {
                        assert(r[i - 1] == bloc[i - 1]);
                        assert(r[i] == bloc[i]);
                    } else {
                        assert(r[i - 1] == bloc.last());
                    }
                }
            }
        },
        ValueV::Default => {},
        ValueV::Dummy(_) => {},
        ValueV::Subkeys(_) => {},
        ValueV::ForeignKey(FkV::NotSet(_, _)) => {},
        _ => {
            let r = spec_reduce_into(v, bloc);
            assert(r == bloc.push(spec_reduce(v)));
            assert(flat_piece(spec_reduce(v)) && !(spec_reduce(v) is Literal));
            assert forall|i: int| 1 <= i < r.len() implies !(#[trigger] r[i - 1] is Literal && r[i] is Literal) by {
                if i < r.len() - 1 {
                    assert(r[i - 1] == bloc[i - 1]);
                    assert(r[i] == bloc[i]);
                }
            }
            assert forall|i: int| 0 <= i < r.len() implies flat_piece(#[trigger] r[i]) by {
                if i < r.len() - 1 {
                    assert(r[i] == bloc[i]);
                }
            }
        },
    }
}

pub proof fn law_reduce_into_seq_keeps_flat(vs: Seq<ValueV>, bloc: Seq<ValueV>)
    requires
        is_flat(bloc),
    ensures
        is_flat(spec_reduce_into_seq(vs, bloc)),
    decreases vs, 1nat,
{
    if vs.len() > 0 {
        law_reduce_into_seq_keeps_flat(vs.drop_last(), bloc);
        law_reduce_into_keeps_flat(vs.last(), spec_reduce_into_seq(vs.drop_last(), bloc));
    }
}

/// A simplified bloc value holds at least two pieces, none of them a bloc,
/// a default, a placeholder or a foreign key, and no two literals side by
/// side; an empty bloc becomes the empty string, a bloc of one piece that
/// piece.
pub proof fn law_reduced_bloc(vs: Seq<ValueV>)
    ensures
        spec_reduce(ValueV::Bloc(vs)) matches ValueV::Bloc(out) ==> out.len() >= 2 && is_flat(out),
        spec_reduce_into_seq(vs, Seq::empty()).len() == 0 ==> spec_reduce(ValueV::Bloc(vs)) == empty_string_value(),
        spec_reduce_into_seq(vs, Seq::empty()).len() == 1 ==> flat_piece(spec_reduce(ValueV::Bloc(vs))),
{
    let e = Seq::<ValueV>::empty();
    law_reduce_into_seq_keeps_flat(vs, e);
}

/// A literal whose text is written out: a float is never written empty.
pub open spec fn lit_written(l: LiteralV) -> bool {
    !(l matches LiteralV::Float(t) && t.len() == 0)
}

/// Every literal in the value, where simplification reads it, has its text
/// written out.
pub open spec fn floats_written(v: ValueV) -> bool
    decreases v,
{
    match v {
        ValueV::Literal(l) => lit_written(l),
        ValueV::ForeignKey(FkV::Resolved(b)) => floats_written(*b),
        ValueV::Component(_, Some(b), _) => floats_written(*b),
        ValueV::Bloc(vs) => floats_written_seq(vs),
        ValueV::Plurals(p) => floats_written(*p.other) && floats_written_forms(p.forms),
        _ => true,
    }
}

pub open spec fn floats_written_seq(vs: Seq<ValueV>) -> bool
    decreases vs,
{
    if vs.len() == 0 {
        true
    } else {
        floats_written_seq(vs.drop_last()) && floats_written(vs.last())
    }
}

pub open spec fn floats_written_forms(fs: Seq<(PluralForm, ValueV)>) -> bool
    decreases fs,
{
    if fs.len() == 0 {
        true
    } else {
        floats_written_forms(fs.drop_last()) && floats_written(fs.last().1)
    }
}

/// A literal piece is never empty.
pub open spec fn lit_nonempty(v: ValueV) -> bool {
    v matches ValueV::Literal(l) ==> literal_text(l).len() > 0
}

/// A value in simplified form: no resolved foreign key left, and every bloc,
/// at any depth, holds at least two pieces, each a literal with some text,
/// a variable, a component or plurals, itself simplified, with no two
/// literals side by side.
pub open spec fn settled(v: ValueV) -> bool
    decreases v,
{
    match v {
        ValueV::ForeignKey(FkV::Resolved(_)) => false,
        ValueV::Component(_, Some(b), _) => settled(*b),
        ValueV::Bloc(vs) => vs.len() >= 2 && settled_bloc(vs),
        ValueV::Plurals(p) => settled(*p.other) && settled_forms(p.forms),
        _ => true,
    }
}

/// The pieces of a simplified bloc.
pub open spec fn settled_bloc(vs: Seq<ValueV>) -> bool
    decreases vs,
{
    if vs.len() == 0 {
        true
    } else {
        &&& settled_bloc(vs.drop_last())
        &&& flat_piece(vs.last())
        &&& settled(vs.last())
        &&& lit_nonempty(vs.last())
        &&& vs.len() >= 2 ==> !(vs[vs.len() - 2] is Literal && vs.last() is Literal)
    }
}

pub open spec fn settled_forms(fs: Seq<(PluralForm, ValueV)>) -> bool
    decreases fs,
{
    if fs.len() == 0 {
        true
    } else {
        settled_forms(fs.drop_last()) && settled(fs.last().1)
    }
}

proof fn lemma_dec_nat_nonempty(n: nat)
    ensures
        dec_nat(n).len() > 0,
{
}

/// The text of a written literal that is not the empty string is not empty.
proof fn lemma_text_nonempty(l: LiteralV)
    requires
        lit_written(l),
        !(l matches LiteralV::String(s, _) && s.len() == 0),
    ensures
        literal_text(l).len() > 0,
{
    match l {
        LiteralV::Signed(v) => {
            lemma_dec_nat_nonempty((-(v as int)) as nat);
            lemma_dec_nat_nonempty(v as nat);
        },
        LiteralV::Unsigned(v) => lemma_dec_nat_nonempty(v as nat),
        LiteralV::Bool(b) => {
            reveal_strlit("true");
            reveal_strlit("false");
        },
        _ => {},
    }
}

proof fn lemma_reduce_settled(v: ValueV)
    requires
        floats_written(v),
    ensures
        settled(spec_reduce(v)),
    decreases v, 0nat,
{
    match v {
        ValueV::ForeignKey(FkV::Resolved(b)) => lemma_reduce_settled(*b),
        ValueV::Component(_, Some(b), _) => lemma_reduce_settled(*b),
        ValueV::Bloc(vs) => {
            lemma_reduce_into_seq_settled(vs, Seq::empty());
            let out = spec_reduce_into_seq(vs, Seq::empty());
            if out.len() == 1 {
                assert(out.last() == out[0]);
            }
        },
        ValueV::Plurals(p) => {
            lemma_reduce_settled(*p.other);
            lemma_reduce_forms_settled(p.forms);
        },
        _ => {},
    }
}

proof fn lemma_reduce_into_settled(v: ValueV, bloc: Seq<ValueV>)
    requires
        floats_written(v),
        settled_bloc(bloc),
    ensures
        settled_bloc(spec_reduce_into(v, bloc)),
    decreases v, 1nat,
{
    match v {
        ValueV::ForeignKey(FkV::Resolved(b)) => lemma_reduce_into_settled(*b, bloc),
        ValueV::Bloc(vs) => lemma_reduce_into_seq_settled(vs, bloc),
        ValueV::Literal(l) => {
            let r = spec_reduce_into(v, bloc);
            if l matches LiteralV::String(s, _) && s.len() == 0 {
            } else {
                lemma_text_nonempty(l);
                if bloc.len() > 0 && bloc.last() is Literal {
                    let a = bloc.last()->Literal_0;
                    assert(literal_text(spec_join(a, l)) =~= literal_text(a) + literal_text(l));
                    assert(r.drop_last() =~= bloc.drop_last());
                    assert(r.last() == ValueV::Literal(spec_join(a, l)));
                    assert(settled(ValueV::Literal(spec_join(a, l))));
                    if r.len() >= 2 {
                        assert(r[r.len() - 2] == bloc[bloc.len() - 2]);
                    }
                } else {
                    assert(r.drop_last() =~= bloc);
                    assert(r.last() == ValueV::Literal(l));
                    assert(settled(ValueV::Literal(l)));
                    if r.len() >= 2 {
                        assert(r[r.len() - 2] == bloc.last());
                    }
                }
            }
        },
        ValueV::Default => {},
        ValueV::Dummy(_) => {},
        ValueV::Subkeys(_) => {},
        ValueV::ForeignKey(FkV::NotSet(_, _)) => {},
        _ => {
            let r = spec_reduce_into(v, bloc);
            lemma_reduce_settled(v);
            assert(r == bloc.push(spec_reduce(v)));
            assert(r.last() == spec_reduce(v));
            assert(flat_piece(spec_reduce(v)));
            assert(r.drop_last() =~= bloc);
            if r.len() >= 2 {
                assert(r[r.len() - 2] == bloc.last());
            }
        },
    }
}

proof fn lemma_reduce_into_seq_settled(vs: Seq<ValueV>, bloc: Seq<ValueV>)
    requires
        floats_written_seq(vs),
        settled_bloc(bloc),
    ensures
        settled_bloc(spec_reduce_into_seq(vs, bloc)),
    decreases vs, 1nat,
{
    if vs.len() > 0 {
        lemma_reduce_into_seq_settled(vs.drop_last(), bloc);
        lemma_reduce_into_settled(vs.last(), spec_reduce_into_seq(vs.drop_last(), bloc));
    }
}

proof fn lemma_reduce_forms_settled(fs: Seq<(PluralForm, ValueV)>)
    requires
        floats_written_forms(fs),
    ensures
        settled_forms(spec_reduce_forms(fs)),
    decreases fs, 1nat,
{
    if fs.len() > 0 {
        lemma_reduce_forms_settled(fs.drop_last());
        lemma_reduce_settled(fs.last().1);
        let r = spec_reduce_forms(fs);
        assert(r.drop_last() =~= spec_reduce_forms(fs.drop_last()));
    }
}

/// Simplification leaves a value in simplified form as it is.
pub proof fn law_settled_unchanged(v: ValueV)
    requires
        settled(v),
    ensures
        spec_reduce(v) == v,
    decreases v, 0nat,
{
    match v {
        ValueV::Component(_, Some(b), _) => law_settled_unchanged(*b),
        ValueV::Bloc(vs) => lemma_settled_bloc_unchanged(vs),
        ValueV::Plurals(p) => {
            law_settled_unchanged(*p.other);
            lemma_settled_forms_unchanged(p.forms);
        },
        _ => {},
    }
}

proof fn lemma_settled_bloc_unchanged(vs: Seq<ValueV>)
    requires
        settled_bloc(vs),
    ensures
        spec_reduce_into_seq(vs, Seq::empty()) == vs,
    decreases vs, 1nat,
{
    if vs.len() > 0 {
        let init = vs.drop_last();
        let x = vs.last();
        lemma_settled_bloc_unchanged(init);
        assert(vs =~= init.push(x));
        assert(spec_reduce_into_seq(vs, Seq::empty()) == spec_reduce_into(x, init));
        match x {
            ValueV::Literal(l) => {
                assert(literal_text(l).len() > 0);
                assert(!(l matches LiteralV::String(s, _) && s.len() == 0));
                if init.len() > 0 {
                    assert(init.last() == vs[vs.len() - 2]);
                    assert(!(init.last() is Literal));
                }
                assert(spec_reduce_into(x, init) == init.push(x));
            },
            ValueV::Variable(_, _) => {
                assert(spec_reduce_into(x, init) == init.push(spec_reduce(x)));
            },
            _ => {
                law_settled_unchanged(x);
                assert(x is Component || x is Plurals);
                assert(spec_reduce_into(x, init) == init.push(spec_reduce(x)));
            },
        }
    } else {
        assert(vs =~= Seq::<ValueV>::empty());
    }
}

proof fn lemma_settled_forms_unchanged(fs: Seq<(PluralForm, ValueV)>)
    requires
        settled_forms(fs),
    ensures
        spec_reduce_forms(fs) == fs,
    decreases fs, 1nat,
{
    if fs.len() > 0 {
        lemma_settled_forms_unchanged(fs.drop_last());
        law_settled_unchanged(fs.last().1);
        assert(fs =~= fs.drop_last().push(fs.last()));
    }
}

/// Simplifying a value whose literals have their text written out gives a
/// value in simplified form (no resolved foreign key, and every bloc at
/// any depth flat, of at least two pieces, with no empty literal and no two
/// literals side by side), and simplifying that again changes nothing.
pub proof fn law_reduce_idempotent(v: ValueV)
    requires
        floats_written(v),
    ensures
        settled(spec_reduce(v)),
        spec_reduce(spec_reduce(v)) == spec_reduce(v),
{
    lemma_reduce_settled(v);
    law_settled_unchanged(spec_reduce(v));
}

} // verus!
