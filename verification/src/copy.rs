//! Deep copies of parsed values, equal to the original in every part.

use vstd::prelude::*;

use crate::plurals::PluralForm;
use crate::text::to_owned;
use crate::key::Key;
use crate::value::{view_entries, lemma_view_forms_len, Attribute, AttributeValue, Dummy, ForeignKey, Literal, ParsedValue, Plurals, attrs_view, lemma_view_args_len, lemma_view_values_len, view_args, view_forms, view_values};

verus! {

impl Literal {
    /// A copy of this literal.
    pub fn copy(&self) -> (res: Literal)
        ensures
            res@ == self@,
    {
        match self {
            Literal::String(s, i) => Literal::String(to_owned(s.as_str()), *i),
            Literal::Signed(v) => Literal::Signed(*v),
            Literal::Unsigned(v) => Literal::Unsigned(*v),
            Literal::Float(t) => Literal::Float(to_owned(t.as_str())),
            Literal::Bool(b) => Literal::Bool(*b),
        }
    }
}

pub(crate) fn copy_attrs(a: &Vec<Attribute>) -> (res: Vec<Attribute>)
    ensures
        attrs_view(res@) == attrs_view(a@),
{
    let mut out: Vec<Attribute> = Vec::new();
    let mut i: usize = 0;
    while i < a.len()
        invariant
            i <= a@.len(),
            attrs_view(out@) == attrs_view(a@.take(i as int)),
        decreases a@.len() - i,
    {
        let x = &a[i];
        let value = match &x.value {
            Some(AttributeValue::Literal(l)) => Some(AttributeValue::Literal(l.copy())),
            Some(AttributeValue::Variable(k)) => Some(AttributeValue::Variable(k.copy())),
            None => None,
        };
        let ghost before = out@;
        out.push(Attribute { key: to_owned(x.key.as_str()), value });
        assert(attrs_view(out@) =~= attrs_view(before).push(x@));
        assert(a@.take(i + 1) =~= a@.take(i as int).push(a@[i as int]));
        assert(attrs_view(a@.take(i + 1)) =~= attrs_view(a@.take(i as int)).push(x@));
        i = i + 1;
    }
    assert(a@.take(i as int) =~= a@);
    out
}

fn copy_dummies(d: &Vec<Dummy>) -> (res: Vec<Dummy>)
    ensures
        res@.map_values(|x: Dummy| x@) == d@.map_values(|x: Dummy| x@),
{
    let mut out: Vec<Dummy> = Vec::new();
    let mut i: usize = 0;
    while i < d.len()
        invariant
            i <= d@.len(),
            out@.map_values(|x: Dummy| x@) == d@.take(i as int).map_values(|x: Dummy| x@),
        decreases d@.len() - i,
    {
        let c = match &d[i] {
            Dummy::Variable(k) => Dummy::Variable(k.copy()),
            Dummy::Component(k) => Dummy::Component(k.copy()),
        };
        let ghost before = out@;
        out.push(c);
        assert(out@.map_values(|x: Dummy| x@) =~= before.map_values(|x: Dummy| x@).push(d@[i as int]@));
        assert(d@.take(i + 1).map_values(|x: Dummy| x@) =~= d@.take(i as int).map_values(|x: Dummy| x@).push(
            d@[i as int]@,
        ));
        i = i + 1;
    }
    assert(d@.take(i as int) =~= d@);
    out
}

impl ParsedValue {
    /// A copy of this value.
    pub fn copy(&self) -> (res: ParsedValue)
        ensures
            res@ == self@,
        decreases self,
    {
        match self {
            ParsedValue::Default => ParsedValue::Default,
            ParsedValue::ForeignKey(fk) => match fk {
                ForeignKey::NotSet(kp, args) => {
                    let mut out: Vec<(String, ParsedValue)> = Vec::new();
                    let mut i: usize = 0;
                    proof {
                        lemma_view_args_len(args@);
                    }
                    while i < args.len()
                        invariant
                            *self == ParsedValue::ForeignKey(ForeignKey::NotSet(*kp, *args)),
                            i <= args@.len(),
                            view_args(out@) == view_args(args@.take(i as int)),
                        decreases args@.len() - i,
                    {
                        proof {
                            assert(decreases_to!(*self => (*self)->ForeignKey_0));
                            assert(decreases_to!((*self)->ForeignKey_0 => (*self)->ForeignKey_0->NotSet_1));
                            assert(decreases_to!((*self)->ForeignKey_0->NotSet_1 => (*self)->ForeignKey_0->NotSet_1@));
                            assert(decreases_to!((*self)->ForeignKey_0->NotSet_1@ => (*self)->ForeignKey_0->NotSet_1@[i as int]));
                            assert(decreases_to!((*self)->ForeignKey_0->NotSet_1@[i as int] => (*self)->ForeignKey_0->NotSet_1@[i as int].1));
                        }
                        let v = args[i].1.copy();
                        let ghost before = out@;
                        out.push((to_owned(args[i].0.as_str()), v));
                        proof {
                            assert(out@.drop_last() =~= before);
                            assert(args@.take(i + 1).drop_last() =~= args@.take(i as int));
                        }
                        i = i + 1;
                    }
                    assert(args@.take(i as int) =~= args@);
                    ParsedValue::ForeignKey(ForeignKey::NotSet(kp.copy(), out))
                },
                ForeignKey::Resolved(b) => {
                    proof {
                        assert(decreases_to!(*self => (*self)->ForeignKey_0));
                        assert(decreases_to!((*self)->ForeignKey_0 => (*self)->ForeignKey_0->Resolved_0));
                    }
                    ParsedValue::ForeignKey(ForeignKey::Resolved(Box::new(b.copy())))
                },
            },
            ParsedValue::Literal(l) => ParsedValue::Literal(l.copy()),
            ParsedValue::Variable { key, formatter } => ParsedValue::Variable { key: key.copy(), formatter: *formatter },
            ParsedValue::Component { key, inner, attributes } => {
                let inner2 = match inner {
                    Some(b) => {
                        proof {
                            assert(decreases_to!(*self => (*self)->Component_inner));
                            assert(decreases_to!((*self)->Component_inner => (*self)->Component_inner->Some_0));
                        }
                        Some(Box::new(b.copy()))
                    },
                    None => None,
                };
                ParsedValue::Component { key: key.copy(), inner: inner2, attributes: copy_attrs(attributes) }
            },
            ParsedValue::Bloc(vs) => {
                let mut out: Vec<ParsedValue> = Vec::new();
                let mut i: usize = 0;
                proof {
                    lemma_view_values_len(vs@);
                }
                while i < vs.len()
                    invariant
                        *self == ParsedValue::Bloc(*vs),
                        i <= vs@.len(),
                        view_values(out@) == view_values(vs@.take(i as int)),
                    decreases vs@.len() - i,
                {
                    proof {
                        assert(decreases_to!(*self => (*self)->Bloc_0));
                        assert(decreases_to!((*self)->Bloc_0 => (*self)->Bloc_0@));
                        assert(decreases_to!((*self)->Bloc_0@ => (*self)->Bloc_0@[i as int]));
                    }
                    let v = vs[i].copy();
                    let ghost before = out@;
                    out.push(v);
                    proof {
                        assert(out@.drop_last() =~= before);
                        assert(vs@.take(i + 1).drop_last() =~= vs@.take(i as int));
                    }
                    i = i + 1;
                }
                assert(vs@.take(i as int) =~= vs@);
                ParsedValue::Bloc(out)
            },
            ParsedValue::Plurals(p) => {
                let mut forms: Vec<(PluralForm, ParsedValue)> = Vec::new();
                let mut i: usize = 0;
                proof {
                    lemma_view_forms_len(p.forms@);
                }
                while i < p.forms.len()
                    invariant
                        *self == ParsedValue::Plurals(*p),
                        i <= p.forms@.len(),
                        view_forms(forms@) == view_forms(p.forms@.take(i as int)),
                    decreases p.forms@.len() - i,
                {
                    proof {
                        assert(decreases_to!(*self => (*self)->Plurals_0));
                        assert(decreases_to!((*self)->Plurals_0 => (*self)->Plurals_0.forms));
                        assert(decreases_to!((*self)->Plurals_0.forms => (*self)->Plurals_0.forms@));
                        assert(decreases_to!((*self)->Plurals_0.forms@ => (*self)->Plurals_0.forms@[i as int]));
                        assert(decreases_to!((*self)->Plurals_0.forms@[i as int] => (*self)->Plurals_0.forms@[i as int].1));
                    }
                    let v = p.forms[i].1.copy();
                    let ghost before = forms@;
                    forms.push((p.forms[i].0, v));
                    proof {
                        assert(forms@.drop_last() =~= before);
                        assert(p.forms@.take(i + 1).drop_last() =~= p.forms@.take(i as int));
                    }
                    i = i + 1;
                }
                assert(p.forms@.take(i as int) =~= p.forms@);
                proof {
                    assert(decreases_to!(*self => (*self)->Plurals_0));
                    assert(decreases_to!((*self)->Plurals_0 => (*self)->Plurals_0.other));
                }
                let other = p.other.copy();
                ParsedValue::Plurals(
                    Plurals {
                        rule_type: p.rule_type,
                        count_key: p.count_key.copy(),
                        other: Box::new(other),
                        forms,
                    },
                )
            },
            ParsedValue::Dummy(d) => ParsedValue::Dummy(copy_dummies(d)),
            ParsedValue::Subkeys(es) => {
                let mut out: Vec<(Key, ParsedValue)> = Vec::new();
                let mut i: usize = 0;
                while i < es.len()
                    invariant
                        *self == ParsedValue::Subkeys(*es),
                        i <= es@.len(),
                        view_entries(out@) == view_entries(es@.take(i as int)),
                    decreases es@.len() - i,
                {
                    proof {
                        assert(decreases_to!(*self => (*self)->Subkeys_0));
                        assert(decreases_to!((*self)->Subkeys_0 => (*self)->Subkeys_0@));
                        assert(decreases_to!((*self)->Subkeys_0@ => (*self)->Subkeys_0@[i as int]));
                        assert(decreases_to!((*self)->Subkeys_0@[i as int] => (*self)->Subkeys_0@[i as int].1));
                    }
                    let v = es[i].1.copy();
                    let ghost before = out@;
                    out.push((es[i].0.copy(), v));
                    proof {
                        assert(out@.drop_last() =~= before);
                        assert(es@.take(i + 1).drop_last() =~= es@.take(i as int));
                    }
                    i = i + 1;
                }
                assert(es@.take(i as int) =~= es@);
                ParsedValue::Subkeys(out)
            },
        }
    }
}

} // verus!
