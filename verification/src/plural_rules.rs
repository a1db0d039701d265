//! The plural rules of a locale, as `icu_plurals` gives them: the category
//! of a count.

use vstd::prelude::*;
use crate::error::{ErrV, Error, WarnV, Warning, warnings_view};
use crate::key::{Key, KeyPath, KeyPathV};
use crate::plurals::{PluralForm, PluralRuleType};
use crate::value::{Plurals, PluralsV};

verus! {

#[verifier::external_type_specification]
#[verifier::external_body]
pub struct ExPluralRules(icu_plurals::PluralRules);

/// Why the plural rules of a locale cannot be had, with the text of the
/// outside error.
#[derive(Debug, Clone, PartialEq)]
pub enum RulesFailure {
    InvalidLocale(String),
    NoRules(String),
}

/// View of a rules failure.
pub enum RulesFailureV {
    InvalidLocale(Seq<char>),
    NoRules(Seq<char>),
}

impl View for RulesFailure {
    type V = RulesFailureV;

    open spec fn view(&self) -> RulesFailureV {
        match self {
            RulesFailure::InvalidLocale(s) => RulesFailureV::InvalidLocale(s@),
            RulesFailure::NoRules(s) => RulesFailureV::NoRules(s@),
        }
    }
}

/// The plural rules of a locale and rule type, with the locale name and
/// rule type they were made for.
pub struct RulesFor {
    rules: icu_plurals::PluralRules,
    locale: Ghost<Seq<char>>,
    rule: Ghost<PluralRuleType>,
}

impl View for RulesFor {
    type V = (Seq<char>, PluralRuleType);

    closed spec fn view(&self) -> (Seq<char>, PluralRuleType) {
        (self.locale@, self.rule@)
    }
}

/// Whether the plural rules of a locale name and rule type can be had:
/// `None` when they can, else why not (the name does not parse as a
/// locale, or no rules are compiled in for it).
pub uninterp spec fn rules_failure(locale: Seq<char>, rule: PluralRuleType) -> Option<RulesFailureV>;

/// The category that the rules of a locale give an integer count.
pub uninterp spec fn plural_category(locale: Seq<char>, rule: PluralRuleType, n: u64) -> PluralForm;

/// The category that the rules of a locale give a decimal count written
/// `text`, or `None` when the text is not a decimal number.
pub uninterp spec fn plural_category_decimal(locale: Seq<char>, rule: PluralRuleType, text: Seq<char>) -> Option<
    PluralForm,
>;

/// Parses `locale` with `icu_locale::Locale::try_from_str` and calls
/// `icu_plurals::PluralRules::try_new` with the rule type; the errors are
/// kept as their `Display` text. The contract claims only that the outcome
/// is a function of the name and rule type, and ties the rules to them.
#[verifier::external_body]
pub(crate) fn rules_for(locale: &str, rule: PluralRuleType) -> (res: Result<RulesFor, RulesFailure>)
    ensures
        match res {
            Ok(r) => rules_failure(locale@, rule) is None && r@ == (locale@, rule),
            Err(e) => rules_failure(locale@, rule) == Some(e@),
        },
{
    let loc = icu_locale::Locale::try_from_str(locale).map_err(|e| RulesFailure::InvalidLocale(format!("{}", e)))?;
    let kind = match rule {
        PluralRuleType::Cardinal => icu_plurals::PluralRuleType::Cardinal,
        PluralRuleType::Ordinal => icu_plurals::PluralRuleType::Ordinal,
    };
    let rules = icu_plurals::PluralRules::try_new(loc.into(), kind.into())
        .map_err(|e| RulesFailure::NoRules(format!("{}", e)))?;
    Ok(RulesFor { rules, locale: Ghost(locale@), rule: Ghost(rule) })
}

/// Calls `PluralRules::category_for` on an integer count and names the
/// category; the contract claims only that the category is a function of
/// the rules' locale and rule type and of the count.
#[verifier::external_body]
pub(crate) fn category_for(r: &RulesFor, n: u64) -> (res: PluralForm)
    ensures
        res == plural_category(r@.0, r@.1, n),
{
    match r.rules.category_for(n) {
        icu_plurals::PluralCategory::Zero => PluralForm::Zero,
        icu_plurals::PluralCategory::One => PluralForm::One,
        icu_plurals::PluralCategory::Two => PluralForm::Two,
        icu_plurals::PluralCategory::Few => PluralForm::Few,
        icu_plurals::PluralCategory::Many => PluralForm::Many,
        icu_plurals::PluralCategory::Other => PluralForm::Other,
    }
}

/// Reads `text` with `fixed_decimal::Decimal::try_from_str` and calls
/// `PluralRules::category_for` on it; `None` when the text does not parse.
/// The contract claims only that the outcome is a function of the rules'
/// locale and rule type and of the text.
#[verifier::external_body]
pub(crate) fn category_for_decimal(r: &RulesFor, text: &str) -> (res: Option<PluralForm>)
    ensures
        res == plural_category_decimal(r@.0, r@.1, text@),
{
    let d = fixed_decimal::Decimal::try_from_str(text).ok()?;
    Some(match r.rules.category_for(&d) {
        icu_plurals::PluralCategory::Zero => PluralForm::Zero,
        icu_plurals::PluralCategory::One => PluralForm::One,
        icu_plurals::PluralCategory::Two => PluralForm::Two,
        icu_plurals::PluralCategory::Few => PluralForm::Few,
        icu_plurals::PluralCategory::Many => PluralForm::Many,
        icu_plurals::PluralCategory::Other => PluralForm::Other,
    })
}

/// The categories that the rules of a locale use, in CLDR order.
pub uninterp spec fn plural_categories(locale: Seq<char>, rule: PluralRuleType) -> Seq<PluralForm>;

/// Calls `PluralRules::categories`; its documentation promises that the
/// `other` category is always among them. The contract claims that and
/// that the list is a function of the rules' locale and rule type.
#[verifier::external_body]
pub(crate) fn categories_for(r: &RulesFor) -> (res: Vec<PluralForm>)
    ensures
        res@ == plural_categories(r@.0, r@.1),
        res@.contains(PluralForm::Other),
{
    r.rules.categories().map(|c| match c {
        icu_plurals::PluralCategory::Zero => PluralForm::Zero,
        icu_plurals::PluralCategory::One => PluralForm::One,
        icu_plurals::PluralCategory::Two => PluralForm::Two,
        icu_plurals::PluralCategory::Few => PluralForm::Few,
        icu_plurals::PluralCategory::Many => PluralForm::Many,
        icu_plurals::PluralCategory::Other => PluralForm::Other,
    }).collect()
}

/// The error for plural rules that cannot be had for `locale`.
pub open spec fn failure_error(locale: Seq<char>, f: RulesFailureV) -> ErrV {
    match f {
        RulesFailureV::InvalidLocale(t) => ErrV::InvalidLocale { locale: locale, err: t },
        RulesFailureV::NoRules(t) => ErrV::PluralRulesError(t),
    }
}

/// The forms, in category order.
pub open spec fn all_forms() -> Seq<PluralForm> {
    seq![PluralForm::Zero, PluralForm::One, PluralForm::Two, PluralForm::Few, PluralForm::Many, PluralForm::Other]
}

pub open spec fn has_form(fs: Seq<(PluralForm, crate::value::ValueV)>, f: PluralForm) -> bool {
    exists|i: int| 0 <= i < fs.len() && fs[i].0 == f
}

/// The warnings for the forms among the first `n` categories that the
/// plural gives but the rules do not use, in category order.
pub open spec fn unused_forms(p: PluralsV, used: Seq<PluralForm>, locale: Seq<char>, kp: KeyPathV, n: int) -> Seq<
    WarnV,
>
    decreases n,
{
    if n <= 0 {
        Seq::empty()
    } else {
        let prev = unused_forms(p, used, locale, kp, n - 1);
        let f = all_forms()[n - 1];
        if has_form(p.forms, f) && !used.contains(f) {
            prev.push(WarnV::UnusedForm { locale, key_path: kp, form: f, rule_type: p.rule_type })
        } else {
            prev
        }
    }
}

/// The warnings of `check_forms`: one for each form that the plural gives
/// and the locale's rules never select, in category order; an error when
/// the rules cannot be had.
pub open spec fn spec_check_forms(p: PluralsV, locale: Seq<char>, kp: KeyPathV) -> Result<Seq<WarnV>, ErrV> {
    match rules_failure(locale, p.rule_type) {
        Some(f) => Err(failure_error(locale, f)),
        None => Ok(unused_forms(p, plural_categories(locale, p.rule_type), locale, kp, 6)),
    }
}

fn failure_to_error(f: RulesFailure, locale: &Key) -> (res: Error)
    ensures
        res@ == failure_error(locale@, f@),
{
    match f {
        RulesFailure::InvalidLocale(t) => Error::InvalidLocale { locale: crate::text::to_owned(locale.name.as_str()), err: t },
        RulesFailure::NoRules(t) => Error::PluralRulesError(t),
    }
}

fn forms_has(fs: &Vec<(PluralForm, crate::value::ParsedValue)>, f: PluralForm) -> (res: bool)
    ensures
        res == has_form(crate::value::view_forms(fs@), f),
{
    proof {
        crate::value::lemma_view_forms_len(fs@);
    }
    let mut i: usize = 0;
    while i < fs.len()
        invariant
            i <= fs@.len(),
            crate::value::view_forms(fs@).len() == fs@.len(),
            forall|j: int| 0 <= j < fs@.len() ==> #[trigger] crate::value::view_forms(fs@)[j].0 == fs@[j].0,
            forall|j: int| 0 <= j < i ==> fs@[j].0 != f,
        decreases fs@.len() - i,
    {
        if fs[i].0 == f {
            assert(crate::value::view_forms(fs@)[i as int].0 == f);
            return true;
        }
        i = i + 1;
    }
    assert forall|j: int| 0 <= j < crate::value::view_forms(fs@).len() implies crate::value::view_forms(fs@)[j].0 != f by {
        assert(crate::value::view_forms(fs@)[j].0 == fs@[j].0);
    }
    false
}

pub(crate) fn forms_contains(v: &Vec<PluralForm>, f: PluralForm) -> (res: bool)
    ensures
        res == v@.contains(f),
{
    let mut i: usize = 0;
    while i < v.len()
        invariant
            i <= v@.len(),
            forall|j: int| 0 <= j < i ==> v@[j] != f,
        decreases v@.len() - i,
    {
        if v[i] == f {
            assert(v@[i as int] == f);
            return true;
        }
        i = i + 1;
    }
    false
}

/// Warns about each form that the plural gives and the locale's rules
/// never select (see `spec_check_forms`); the warnings are appended.
pub fn check_forms(p: &Plurals, locale: &Key, key_path: &KeyPath, warnings: &mut Vec<Warning>) -> (res: Result<
    (),
    Error,
>)
    ensures
        match spec_check_forms(crate::populate::plurals_view(*p), locale@, key_path@) {
            Ok(ws) => res is Ok && warnings_view(final(warnings)@) == warnings_view(old(warnings)@) + ws,
            Err(e) => res is Err && res->Err_0@ == e && final(warnings)@ == old(warnings)@,
        },
        res is Ok ==> forall|i: int|
            old(warnings)@.len() <= i < final(warnings)@.len() ==> (#[trigger] final(warnings)@[i]@ matches WarnV::UnusedForm {
                form,
                ..
            } && form != PluralForm::Other),
{
    let ghost pv = crate::populate::plurals_view(*p);
    let r = match rules_for(locale.name.as_str(), p.rule_type) {
        Err(f) => return Err(failure_to_error(f, locale)),
        Ok(r) => r,
    };
    let used = categories_for(&r);
    let ghost w0 = warnings_view(warnings@);
    let forms = [PluralForm::Zero, PluralForm::One, PluralForm::Two, PluralForm::Few, PluralForm::Many, PluralForm::Other];
    assert(forms@ =~= all_forms());
    let mut n: usize = 0;
    while n < 6
        invariant
            n <= 6,
            forms@ == all_forms(),
            used@ == plural_categories(locale@, p.rule_type),
            pv == crate::populate::plurals_view(*p),
            warnings_view(warnings@) == w0 + unused_forms(pv, used@, locale@, key_path@, n as int),
        decreases 6 - n,
    {
        let f = forms[n];
        let ghost before = warnings@;
        if forms_has(&p.forms, f) && !forms_contains(&used, f) {
            warnings.push(Warning::UnusedForm { locale: locale.copy(), key_path: key_path.copy(), form: f, rule_type: p.rule_type });
            proof {
                let w = WarnV::UnusedForm { locale: locale@, key_path: key_path@, form: f, rule_type: p.rule_type };
                assert(unused_forms(pv, used@, locale@, key_path@, n + 1) == unused_forms(
                    pv,
                    used@,
                    locale@,
                    key_path@,
                    n as int,
                ).push(w));
                assert(warnings@ =~= before.push(warnings@.last()));
                assert(warnings_view(warnings@) =~= warnings_view(before).push(w));
            }
        } else {
            assert(unused_forms(pv, used@, locale@, key_path@, n + 1) == unused_forms(
                pv,
                used@,
                locale@,
                key_path@,
                n as int,
            ));
        }
        n = n + 1;
    }
    proof {
        lemma_unused_not_other(pv, used@, locale@, key_path@, 6);
        assert forall|i: int| old(warnings)@.len() <= i < warnings@.len() implies (#[trigger] warnings@[i]@ matches WarnV::UnusedForm {
            form,
            ..
        } && form != PluralForm::Other) by {
            assert(warnings_view(warnings@)[i] == warnings@[i]@);
            assert(warnings_view(warnings@)[i] == unused_forms(pv, used@, locale@, key_path@, 6)[i - w0.len()]);
        }
    }
    Ok(())
}

proof fn lemma_unused_not_other(p: PluralsV, used: Seq<PluralForm>, locale: Seq<char>, kp: KeyPathV, n: int)
    requires
        used.contains(PluralForm::Other),
    ensures
        forall|i: int|
            0 <= i < unused_forms(p, used, locale, kp, n).len() ==> (#[trigger] unused_forms(
                p,
                used,
                locale,
                kp,
                n,
            )[i] matches WarnV::UnusedForm { form, .. } && form != PluralForm::Other),
    decreases n,
{
    if n > 0 {
        lemma_unused_not_other(p, used, locale, kp, n - 1);
    }
}

} // verus!
