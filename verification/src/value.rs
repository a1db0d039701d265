//! The tree of a parsed translation value and its mathematical view.

use vstd::prelude::*;
use crate::formatter::Formatter;
use crate::key::{Key, KeyPath, KeyPathV};
use crate::plurals::{PluralForm, PluralRuleType};

verus! {

/// A literal translation value. A string literal carries the index it gets
/// in its locale's string table (`usize::MAX` until indexed); a float literal
/// carries its decimal text.
#[derive(Debug, Clone, PartialEq)]
pub enum Literal {
    String(String, usize),
    Signed(i64),
    Unsigned(u64),
    Float(String),
    Bool(bool),
}

/// View of a literal.
pub enum LiteralV {
    String(Seq<char>, usize),
    Signed(i64),
    Unsigned(u64),
    Float(Seq<char>),
    Bool(bool),
}

impl View for Literal {
    type V = LiteralV;

    open spec fn view(&self) -> LiteralV {
        match self {
            Literal::String(s, i) => LiteralV::String(s@, *i),
            Literal::Signed(v) => LiteralV::Signed(*v),
            Literal::Unsigned(v) => LiteralV::Unsigned(*v),
            Literal::Float(s) => LiteralV::Float(s@),
            Literal::Bool(b) => LiteralV::Bool(*b),
        }
    }
}

/// The kind of a literal.
#[derive(Debug, Clone, Copy, PartialEq, Eq, Structural)]
pub enum LiteralType {
    String,
    Signed,
    Unsigned,
    Float,
    Bool,
}

/// What a variable must support: nothing (`Dummy`, used after errors), plain
/// display, use as an attribute value, or a given formatter.
#[derive(Debug, Clone, Copy, PartialEq, Eq, Structural, PartialOrd, Ord)]
pub enum VarBound {
    Dummy,
    Unformatted,
    AttributeValue,
    Formatted(Formatter),
}

/// A placeholder found in a value that failed to parse.
#[derive(Debug, Clone, PartialEq)]
pub enum Dummy {
    Variable(Key),
    Component(Key),
}

pub enum DummyV {
    Variable(Seq<char>),
    Component(Seq<char>),
}

impl View for Dummy {
    type V = DummyV;

    open spec fn view(&self) -> DummyV {
        match self {
            Dummy::Variable(k) => DummyV::Variable(k@),
            Dummy::Component(k) => DummyV::Component(k@),
        }
    }
}

/// The value of a component attribute.
#[derive(Debug, Clone, PartialEq)]
pub enum AttributeValue {
    Literal(Literal),
    Variable(Key),
}

pub enum AttributeValueV {
    Literal(LiteralV),
    Variable(Seq<char>),
}

impl View for AttributeValue {
    type V = AttributeValueV;

    open spec fn view(&self) -> AttributeValueV {
        match self {
            AttributeValue::Literal(l) => AttributeValueV::Literal(l@),
            AttributeValue::Variable(k) => AttributeValueV::Variable(k@),
        }
    }
}

/// A component attribute: a name and an optional value.
#[derive(Debug, Clone, PartialEq)]
pub struct Attribute {
    pub key: String,
    pub value: Option<AttributeValue>,
}

pub struct AttributeV {
    pub key: Seq<char>,
    pub value: Option<AttributeValueV>,
}

impl View for Attribute {
    type V = AttributeV;

    open spec fn view(&self) -> AttributeV {
        AttributeV {
            key: self.key@,
            value: match self.value {
                Some(v) => Some(v@),
                None => None,
            },
        }
    }
}

/// A reference to another translation key, with the arguments to pass it;
/// `Resolved` once the target value has been substituted.
#[derive(Debug, PartialEq)]
pub enum ForeignKey {
    NotSet(KeyPath, Vec<(String, ParsedValue)>),
    Resolved(Box<ParsedValue>),
}

impl ForeignKey {
    /// The value a resolved foreign key stands for; the key must be resolved.
    pub fn into_inner(self) -> (res: ParsedValue)
        requires
            self is Resolved,
        ensures
            res == *self->Resolved_0,
    {
        match self {
            ForeignKey::Resolved(inner) => *inner,
            ForeignKey::NotSet(_, _) => {
                proof {
                    assert(false);
                }
                ParsedValue::Default
            },
        }
    }

    /// The value a resolved foreign key stands for, borrowed; the key must
    /// be resolved.
    pub fn as_inner(&self) -> (res: &ParsedValue)
        requires
            *self is Resolved,
        ensures
            *res == *self->Resolved_0,
    {
        match self {
            ForeignKey::Resolved(inner) => inner,
            ForeignKey::NotSet(_, args) => {
                proof {
                    assert(false);
                }
                &args[0].1
            },
        }
    }
}

/// Plural forms of a value, selected by a count variable.
#[derive(Debug, PartialEq)]
pub struct Plurals {
    pub rule_type: PluralRuleType,
    pub count_key: Key,
    pub other: Box<ParsedValue>,
    pub forms: Vec<(PluralForm, ParsedValue)>,
}

/// A parsed translation value.
#[derive(Debug, PartialEq)]
pub enum ParsedValue {
    Default,
    ForeignKey(ForeignKey),
    Literal(Literal),
    Variable { key: Key, formatter: VarBound },
    Component { key: Key, inner: Option<Box<ParsedValue>>, attributes: Vec<Attribute> },
    Bloc(Vec<ParsedValue>),
    Plurals(Plurals),
    Dummy(Vec<Dummy>),
    Subkeys(Vec<(Key, ParsedValue)>),
}

/// View of a parsed value.
pub enum ValueV {
    Default,
    ForeignKey(FkV),
    Literal(LiteralV),
    Variable(Seq<char>, VarBound),
    Component(Seq<char>, Option<Box<ValueV>>, Seq<AttributeV>),
    Bloc(Seq<ValueV>),
    Plurals(PluralsV),
    Dummy(Seq<DummyV>),
    Subkeys(Seq<(Seq<char>, ValueV)>),
}

pub enum FkV {
    NotSet(KeyPathV, Seq<(Seq<char>, ValueV)>),
    Resolved(Box<ValueV>),
}

pub struct PluralsV {
    pub rule_type: PluralRuleType,
    pub count_key: Seq<char>,
    pub other: Box<ValueV>,
    pub forms: Seq<(PluralForm, ValueV)>,
}

/// The views of attributes.
pub open spec fn attrs_view(a: Seq<Attribute>) -> Seq<AttributeV> {
    a.map_values(|x: Attribute| x@)
}

/// The view of a value.
pub open spec fn view_value(v: ParsedValue) -> ValueV
    decreases v,
{
    match v {
        ParsedValue::Default => ValueV::Default,
        ParsedValue::ForeignKey(fk) => match fk {
            ForeignKey::NotSet(kp, args) => ValueV::ForeignKey(FkV::NotSet(kp@, view_args(args@))),
            ForeignKey::Resolved(b) => ValueV::ForeignKey(FkV::Resolved(Box::new(view_value(*b)))),
        },
        ParsedValue::Literal(l) => ValueV::Literal(l@),
        ParsedValue::Variable { key, formatter } => ValueV::Variable(key@, formatter),
        ParsedValue::Component { key, inner, attributes } => ValueV::Component(
            key@,
            match inner {
                Some(b) => Some(Box::new(view_value(*b))),
                None => None,
            },
            attrs_view(attributes@),
        ),
        ParsedValue::Bloc(vs) => ValueV::Bloc(view_values(vs@)),
        ParsedValue::Plurals(p) => ValueV::Plurals(
            PluralsV {
                rule_type: p.rule_type,
                count_key: p.count_key@,
                other: Box::new(view_value(*p.other)),
                forms: view_forms(p.forms@),
            },
        ),
        ParsedValue::Dummy(ds) => ValueV::Dummy(ds@.map_values(|d: Dummy| d@)),
        ParsedValue::Subkeys(es) => ValueV::Subkeys(view_entries(es@)),
    }
}

/// The views of nested keys and their values.
pub open spec fn view_entries(s: Seq<(Key, ParsedValue)>) -> Seq<(Seq<char>, ValueV)>
    decreases s,
{
    if s.len() == 0 {
        Seq::empty()
    } else {
        view_entries(s.drop_last()).push((s.last().0@, view_value(s.last().1)))
    }
}

/// The views of a sequence of values.
pub open spec fn view_values(s: Seq<ParsedValue>) -> Seq<ValueV>
    decreases s,
{
    if s.len() == 0 {
        Seq::empty()
    } else {
        view_values(s.drop_last()).push(view_value(s.last()))
    }
}

/// The views of named arguments.
pub open spec fn view_args(s: Seq<(String, ParsedValue)>) -> Seq<(Seq<char>, ValueV)>
    decreases s,
{
    if s.len() == 0 {
        Seq::empty()
    } else {
        view_args(s.drop_last()).push((s.last().0@, view_value(s.last().1)))
    }
}

/// The views of plural forms.
pub open spec fn view_forms(s: Seq<(PluralForm, ParsedValue)>) -> Seq<(PluralForm, ValueV)>
    decreases s,
{
    if s.len() == 0 {
        Seq::empty()
    } else {
        view_forms(s.drop_last()).push((s.last().0, view_value(s.last().1)))
    }
}

impl View for ParsedValue {
    type V = ValueV;

    open spec fn view(&self) -> ValueV {
        view_value(*self)
    }
}

pub proof fn lemma_view_values_len(s: Seq<ParsedValue>)
    ensures
        view_values(s).len() == s.len(),
        forall|i: int| 0 <= i < s.len() ==> #[trigger] view_values(s)[i] == view_value(s[i]),
    decreases s.len(),
{
    if s.len() > 0 {
        lemma_view_values_len(s.drop_last());
    }
}

pub proof fn lemma_view_values_append(a: Seq<ParsedValue>, b: Seq<ParsedValue>)
    ensures
        view_values(a + b) == view_values(a) + view_values(b),
{
    lemma_view_values_len(a);
    lemma_view_values_len(b);
    lemma_view_values_len(a + b);
    assert(view_values(a + b) =~= view_values(a) + view_values(b));
}

/// The views of plural forms, one for one.
pub proof fn lemma_view_forms_len(s: Seq<(PluralForm, ParsedValue)>)
    ensures
        view_forms(s).len() == s.len(),
        forall|i: int| 0 <= i < s.len() ==> #[trigger] view_forms(s)[i] == (s[i].0, view_value(s[i].1)),
    decreases s.len(),
{
    if s.len() > 0 {
        lemma_view_forms_len(s.drop_last());
    }
}

pub proof fn lemma_view_args_len(s: Seq<(String, ParsedValue)>)
    ensures
        view_args(s).len() == s.len(),
        forall|i: int|
            0 <= i < s.len() ==> #[trigger] view_args(s)[i] == (s[i].0@, view_value(s[i].1)),
    decreases s.len(),
{
    if s.len() > 0 {
        lemma_view_args_len(s.drop_last());
    }
}

pub proof fn lemma_view_args_update(s: Seq<(String, ParsedValue)>, i: int, x: (String, ParsedValue))
    requires
        0 <= i < s.len(),
    ensures
        view_args(s.update(i, x)) == view_args(s).update(i, (x.0@, view_value(x.1))),
{
    lemma_view_args_len(s);
    lemma_view_args_len(s.update(i, x));
    assert(view_args(s.update(i, x)) =~= view_args(s).update(i, (x.0@, view_value(x.1))));
}

pub proof fn lemma_view_args_insert(s: Seq<(String, ParsedValue)>, i: int, x: (String, ParsedValue))
    requires
        0 <= i <= s.len(),
    ensures
        view_args(s.insert(i, x)) == view_args(s).insert(i, (x.0@, view_value(x.1))),
{
    lemma_view_args_len(s);
    lemma_view_args_len(s.insert(i, x));
    assert(view_args(s.insert(i, x)) =~= view_args(s).insert(i, (x.0@, view_value(x.1))));
}

pub proof fn lemma_view_values_push(s: Seq<ParsedValue>, x: ParsedValue)
    ensures
        view_values(s.push(x)) == view_values(s).push(view_value(x)),
{
    assert(s.push(x).drop_last() =~= s);
}

} // verus!
