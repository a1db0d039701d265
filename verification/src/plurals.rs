//! Plural forms and plural rule types.

use vstd::prelude::*;
use crate::text::{spec_rsplit_once, spec_strip_suffix, rsplit_once_char, str_eq, strip_suffix};

verus! {

/// The kind of plural rule a set of forms follows.
#[derive(Debug, Clone, Copy, PartialEq, Eq, Structural, Hash)]
pub enum PluralRuleType {
    Cardinal,
    Ordinal,
}

/// A CLDR plural category.
#[derive(Debug, Clone, Copy, PartialEq, Eq, Structural, Hash, PartialOrd, Ord)]
pub enum PluralForm {
    Zero,
    One,
    Two,
    Few,
    Many,
    Other,
}

/// The form named by a plural suffix, if any.
pub open spec fn form_of_name(s: Seq<char>) -> Option<PluralForm> {
    if s == "zero"@ {
        Some(PluralForm::Zero)
    } else if s == "one"@ {
        Some(PluralForm::One)
    } else if s == "two"@ {
        Some(PluralForm::Two)
    } else if s == "few"@ {
        Some(PluralForm::Few)
    } else if s == "many"@ {
        Some(PluralForm::Many)
    } else if s == "other"@ {
        Some(PluralForm::Other)
    } else {
        None
    }
}

impl PluralForm {
    /// Parses the lower-case CLDR name of a plural category.
    pub fn try_from_str(s: &str) -> (res: Option<PluralForm>)
        ensures
            res == form_of_name(s@),
    {
        if str_eq(s, "zero") {
            Some(PluralForm::Zero)
        } else if str_eq(s, "one") {
            Some(PluralForm::One)
        } else if str_eq(s, "two") {
            Some(PluralForm::Two)
        } else if str_eq(s, "few") {
            Some(PluralForm::Few)
        } else if str_eq(s, "many") {
            Some(PluralForm::Many)
        } else if str_eq(s, "other") {
            Some(PluralForm::Other)
        } else {
            None
        }
    }
}

/// How a form is shown: its key suffix.
pub open spec fn form_text(f: PluralForm) -> Seq<char> {
    match f {
        PluralForm::Zero => "_zero"@,
        PluralForm::One => "_one"@,
        PluralForm::Two => "_two"@,
        PluralForm::Few => "_few"@,
        PluralForm::Many => "_many"@,
        PluralForm::Other => "_other"@,
    }
}

/// How a rule type is shown.
pub open spec fn rule_text(r: PluralRuleType) -> Seq<char> {
    match r {
        PluralRuleType::Cardinal => "cardinal"@,
        PluralRuleType::Ordinal => "ordinal"@,
    }
}

/// A form's key suffix is `_` followed by the name the form is read from:
/// reading the suffix without its `_` gives the form back, and the suffix
/// itself names no form.
pub proof fn law_form_text_round_trip(f: PluralForm)
    ensures
        form_text(f).len() > 0,
        form_text(f)[0] == '_',
        form_of_name(form_text(f).drop_first()) == Some(f),
        form_of_name(form_text(f)) is None,
{
    reveal_strlit("_zero");
    reveal_strlit("_one");
    reveal_strlit("_two");
    reveal_strlit("_few");
    reveal_strlit("_many");
    reveal_strlit("_other");
    reveal_strlit("zero");
    reveal_strlit("one");
    reveal_strlit("two");
    reveal_strlit("few");
    reveal_strlit("many");
    reveal_strlit("other");
    let t = form_text(f);
    let d = t.drop_first();
    assert("zero"@[0] == 'z' && "one"@[0] == 'o' && "two"@[0] == 't');
    assert("few"@[0] == 'f' && "many"@[0] == 'm' && "other"@[0] == 'o');
    assert("zero"@.len() == 4 && "one"@.len() == 3 && "two"@.len() == 3);
    assert("few"@.len() == 3 && "many"@.len() == 4 && "other"@.len() == 5);
    match f {
        PluralForm::Zero => {
            assert(d =~= "zero"@);
        },
        PluralForm::One => {
            assert(d =~= "one"@);
            assert(d != "zero"@);
        },
        PluralForm::Two => {
            assert(d =~= "two"@);
            assert(d[0] != "one"@[0]);
        },
        PluralForm::Few => {
            assert(d =~= "few"@);
            assert(d[0] != "one"@[0] && d[0] != "two"@[0]);
        },
        PluralForm::Many => {
            assert(d =~= "many"@);
            assert(d[0] != "zero"@[0]);
        },
        PluralForm::Other => {
            assert(d =~= "other"@);
        },
    }
    assert(t != "zero"@ && t != "one"@ && t != "two"@ && t != "few"@ && t != "many"@ && t != "other"@) by {
        assert(t[0] == '_');
        assert("zero"@[0] != '_' && "one"@[0] != '_' && "two"@[0] != '_');
        assert("few"@[0] != '_' && "many"@[0] != '_' && "other"@[0] != '_');
    }
}

impl PluralForm {
    /// The form's key suffix, as it is shown.
    pub fn text(&self) -> (res: &'static str)
        ensures
            res@ == form_text(*self),
    {
        match self {
            PluralForm::Zero => "_zero",
            PluralForm::One => "_one",
            PluralForm::Two => "_two",
            PluralForm::Few => "_few",
            PluralForm::Many => "_many",
            PluralForm::Other => "_other",
        }
    }
}

impl PluralRuleType {
    /// The rule type's name, as it is shown.
    pub fn text(&self) -> (res: &'static str)
        ensures
            res@ == rule_text(*self),
    {
        match self {
            PluralRuleType::Cardinal => "cardinal",
            PluralRuleType::Ordinal => "ordinal",
        }
    }
}

/// Stores `src` in `dest`, handing back what `dest` held.
pub fn replace_box_option<V>(dest: &mut Option<Box<V>>, src: V) -> (res: Option<V>)
    ensures
        *final(dest) == Some(Box::new(src)),
        res == (match *old(dest) {
            Some(b) => Some(*b),
            None => None,
        }),
{
    let old = dest.take();
    *dest = Some(Box::new(src));
    match old {
        Some(b) => Some(*b),
        None => None,
    }
}

/// The values of the plural forms of one key: `other` always, the others
/// where the translations give them.
#[derive(Debug, Clone, PartialEq)]
pub struct PluralForms<V> {
    other: Box<V>,
    zero: Option<Box<V>>,
    one: Option<Box<V>>,
    two: Option<Box<V>>,
    few: Option<Box<V>>,
    many: Option<Box<V>>,
}

/// The content of a boxed option.
pub open spec fn unbox<V>(o: Option<Box<V>>) -> Option<V> {
    match o {
        Some(b) => Some(*b),
        None => None,
    }
}

/// The value given last for form `f` in `s`.
pub open spec fn last_for<V>(s: Seq<(PluralForm, V)>, f: PluralForm) -> Option<V>
    decreases s.len(),
{
    if s.len() == 0 {
        None
    } else if s.last().0 == f {
        Some(s.last().1)
    } else {
        last_for(s.drop_last(), f)
    }
}

/// The forms in the order `iter_forms` gives them: the optional ones from
/// zero to many, then `other`.
pub open spec fn forms_in_order<V>(
    zero: Option<V>,
    one: Option<V>,
    two: Option<V>,
    few: Option<V>,
    many: Option<V>,
    other: V,
) -> Seq<(PluralForm, V)> {
    let opt = |f: PluralForm, o: Option<V>|
        match o {
            Some(v) => seq![(f, v)],
            None => Seq::<(PluralForm, V)>::empty(),
        };
    opt(PluralForm::Zero, zero) + opt(PluralForm::One, one) + opt(PluralForm::Two, two) + opt(
        PluralForm::Few,
        few,
    ) + opt(PluralForm::Many, many) + seq![(PluralForm::Other, other)]
}

impl<V> PluralForms<V> {
    /// The value of form `f`, if given.
    pub closed spec fn form(&self, f: PluralForm) -> Option<V> {
        match f {
            PluralForm::Zero => unbox(self.zero),
            PluralForm::One => unbox(self.one),
            PluralForm::Two => unbox(self.two),
            PluralForm::Few => unbox(self.few),
            PluralForm::Many => unbox(self.many),
            PluralForm::Other => Some(*self.other),
        }
    }

    /// The given forms, in the order `iter_forms` lists them.
    pub closed spec fn forms_seq(&self) -> Seq<(PluralForm, V)> {
        forms_in_order(
            unbox(self.zero),
            unbox(self.one),
            unbox(self.two),
            unbox(self.few),
            unbox(self.many),
            *self.other,
        )
    }

    /// `other` is always given.
    pub proof fn lemma_other_given(&self)
        ensures
            self.form(PluralForm::Other) is Some,
    {
    }

    /// Forms with only `other` given.
    pub fn new_from_other(other: V) -> (res: PluralForms<V>)
        ensures
            res.form(PluralForm::Other) == Some(other),
            forall|f: PluralForm| f != PluralForm::Other ==> #[trigger] res.form(f) is None,
    {
        PluralForms { other: Box::new(other), zero: None, one: None, two: None, few: None, many: None }
    }

    /// The value of form `f`, if given.
    pub fn get_form(&self, form: PluralForm) -> (res: Option<&V>)
        ensures
            match res {
                Some(v) => self.form(form) == Some(*v),
                None => self.form(form) is None,
            },
    {
        match form {
            PluralForm::Zero => match &self.zero {
                Some(b) => Some(&**b),
                None => None,
            },
            PluralForm::One => match &self.one {
                Some(b) => Some(&**b),
                None => None,
            },
            PluralForm::Two => match &self.two {
                Some(b) => Some(&**b),
                None => None,
            },
            PluralForm::Few => match &self.few {
                Some(b) => Some(&**b),
                None => None,
            },
            PluralForm::Many => match &self.many {
                Some(b) => Some(&**b),
                None => None,
            },
            PluralForm::Other => Some(&*self.other),
        }
    }

    /// The value of form `f`, or that of `other` where `f` is not given.
    pub fn get_form_or_other(&self, form: PluralForm) -> (res: &V)
        ensures
            *res == (match self.form(form) {
                Some(v) => v,
                None => self.form(PluralForm::Other)->0,
            }),
    {
        match self.get_form(form) {
            Some(v) => v,
            None => &*self.other,
        }
    }

    /// Sets form `f` to `value`, handing back the value it replaces.
    pub fn insert_form(&mut self, form: PluralForm, value: V) -> (res: Option<V>)
        ensures
            final(self).form(form) == Some(value),
            forall|g: PluralForm| g != form ==> #[trigger] final(self).form(g) == old(self).form(g),
            res == old(self).form(form),
    {
        match form {
            PluralForm::Zero => replace_box_option(&mut self.zero, value),
            PluralForm::One => replace_box_option(&mut self.one, value),
            PluralForm::Two => replace_box_option(&mut self.two, value),
            PluralForm::Few => replace_box_option(&mut self.few, value),
            PluralForm::Many => replace_box_option(&mut self.many, value),
            PluralForm::Other => {
                let mut b = Box::new(value);
                std::mem::swap(&mut self.other, &mut b);
                Some(*b)
            },
        }
    }

    /// The forms built from `(form, value)` pairs, a later pair of a form
    /// replacing an earlier one; `None` when no pair gives `other`.
    pub fn try_from_iter(iter: Vec<(PluralForm, V)>) -> (res: Option<PluralForms<V>>)
        ensures
            res is Some <==> last_for(iter@, PluralForm::Other) is Some,
            res matches Some(r) ==> forall|f: PluralForm| #[trigger] r.form(f) == last_for(iter@, f),
    {
        let mut other: Option<Box<V>> = None;
        let mut zero: Option<Box<V>> = None;
        let mut one: Option<Box<V>> = None;
        let mut two: Option<Box<V>> = None;
        let mut few: Option<Box<V>> = None;
        let mut many: Option<Box<V>> = None;
        let ghost all = iter@;
        let mut iter = iter;
        let mut k: usize = 0;
        let n = iter.len();
        while iter.len() > 0
            invariant
                all.len() == n,
                k + iter@.len() == n,
                iter@ == all.skip(k as int),
                unbox(zero) == last_for(all.take(k as int), PluralForm::Zero),
                unbox(one) == last_for(all.take(k as int), PluralForm::One),
                unbox(two) == last_for(all.take(k as int), PluralForm::Two),
                unbox(few) == last_for(all.take(k as int), PluralForm::Few),
                unbox(many) == last_for(all.take(k as int), PluralForm::Many),
                unbox(other) == last_for(all.take(k as int), PluralForm::Other),
            decreases iter@.len(),
        {
            let ghost before = iter@;
            let (form, value) = iter.remove(0);
            assert(before[0] == all[k as int]);
            assert(all.take(k + 1).drop_last() =~= all.take(k as int));
            assert(all.take(k + 1).last() == all[k as int]);
            assert(iter@ =~= all.skip(k + 1));
            let _ = match form {
                PluralForm::Zero => replace_box_option(&mut zero, value),
                PluralForm::One => replace_box_option(&mut one, value),
                PluralForm::Two => replace_box_option(&mut two, value),
                PluralForm::Few => replace_box_option(&mut few, value),
                PluralForm::Many => replace_box_option(&mut many, value),
                PluralForm::Other => replace_box_option(&mut other, value),
            };
            k = k + 1;
        }
        assert(all.take(k as int) =~= all);
        match other {
            Some(o) => {
                let r = PluralForms { other: o, zero, one, two, few, many };
                assert forall|f: PluralForm| #[trigger] r.form(f) == last_for(all, f) by {}
                Some(r)
            },
            None => None,
        }
    }

    /// The given forms with their values: the optional ones from zero to
    /// many, then `other`.
    pub fn iter_forms(&self) -> (res: Vec<(PluralForm, &V)>)
        ensures
            res@.map_values(|p: (PluralForm, &V)| (p.0, *p.1)) == self.forms_seq(),
    {
        let mut out: Vec<(PluralForm, &V)> = Vec::new();
        if let Some(b) = &self.zero {
            out.push((PluralForm::Zero, &**b));
        }
        if let Some(b) = &self.one {
            out.push((PluralForm::One, &**b));
        }
        if let Some(b) = &self.two {
            out.push((PluralForm::Two, &**b));
        }
        if let Some(b) = &self.few {
            out.push((PluralForm::Few, &**b));
        }
        if let Some(b) = &self.many {
            out.push((PluralForm::Many, &**b));
        }
        out.push((PluralForm::Other, &*self.other));
        assert(out@.map_values(|p: (PluralForm, &V)| (p.0, *p.1)) =~= self.forms_seq());
        out
    }
}

/// What a read of a form gives back of a write: after `insert_form(f, v)`,
/// form `f` holds `v`, and every other form what it held; `other` is given
/// whatever was written.
pub proof fn law_insert_then_get<V>(before: PluralForms<V>, after: PluralForms<V>, f: PluralForm, v: V, g: PluralForm)
    requires
        after.form(f) == Some(v),
        forall|h: PluralForm| h != f ==> #[trigger] after.form(h) == before.form(h),
    ensures
        after.form(f) == Some(v),
        g != f ==> after.form(g) == before.form(g),
        after.form(PluralForm::Other) is Some,
{
    after.lemma_other_given();
}

/// A key named like a plural form: `base_form` or `base_ordinal_form`, with
/// the base, the rule type and the form.
pub open spec fn spec_possible_plural(name: Seq<char>) -> Option<(Seq<char>, PluralRuleType, PluralForm)> {
    match spec_rsplit_once(name, '_') {
        None => None,
        Some((base, suffix)) => {
            let (b, rule) = match spec_strip_suffix(base, "_ordinal"@) {
                Some(b) => (b, PluralRuleType::Ordinal),
                None => (base, PluralRuleType::Cardinal),
            };
            match form_of_name(suffix) {
                Some(f) => Some((b, rule, f)),
                None => None,
            }
        },
    }
}

/// Splits a key named like a plural form into its base, rule type and form.
pub fn is_possible_plural(name: &str) -> (res: Option<(&str, PluralRuleType, PluralForm)>)
    ensures
        match res {
            Some((b, r, f)) => spec_possible_plural(name@) == Some((b@, r, f)),
            None => spec_possible_plural(name@) is None,
        },
{
    let (base, suffix) = match rsplit_once_char(name, '_') {
        Some(p) => p,
        None => return None,
    };
    let (b, rule) = match strip_suffix(base, "_ordinal") {
        Some(b) => (b, PluralRuleType::Ordinal),
        None => (base, PluralRuleType::Cardinal),
    };
    match PluralForm::try_from_str(suffix) {
        Some(f) => Some((b, rule, f)),
        None => None,
    }
}

} // verus!
