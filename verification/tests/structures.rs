use leptos_i18n::builders::{extract_value_keys, BuilderId, BuilderIndexer, CompInfos, InterpolationKeys, VarInfos};
use leptos_i18n::formatter::{Formatter, GroupingStrategy};
use leptos_i18n::indexer::StringIndexer;
use leptos_i18n::key::{Key, KeyPath};
use leptos_i18n::plurals::{is_possible_plural, replace_box_option, PluralForm, PluralForms, PluralRuleType};
use leptos_i18n::translations::LocaleInner;
use leptos_i18n::value::{Literal, ParsedValue, VarBound};

fn key(s: &str) -> Key {
    Key::new(s).unwrap()
}

#[test]
fn string_indexer_interns() {
    let mut idx = StringIndexer::new();
    assert_eq!(idx.push_str("a"), 0);
    assert_eq!(idx.push_str("b"), 1);
    assert_eq!(idx.push_str("a"), 0);
    assert_eq!(idx.push_str("c"), 2);
    assert_eq!(idx.get_strings(), vec!["a".to_string(), "b".to_string(), "c".to_string()]);
}

#[test]
fn locale_inner_get_after_insert() {
    let mut l = LocaleInner::new("fr".to_string());
    l.insert("hello".to_string(), "bonjour".to_string());
    l.insert("bye".to_string(), "au revoir".to_string());
    l.insert("hello".to_string(), "salut".to_string());
    assert_eq!(l.lang(), "fr");
    assert_eq!(l.get_by_key("hello"), Some("salut"));
    assert_eq!(l.get_by_key("bye"), Some("au revoir"));
    assert_eq!(l.get_by_key("missing"), None);
    assert_eq!(l.get_by_key_with_default("missing", "dflt"), "dflt");
    assert_eq!(l.get_by_key_with_default("bye", "dflt"), "au revoir");
}

#[test]
fn plural_forms_insert_and_get() {
    let mut f = PluralForms::new_from_other("other");
    assert_eq!(f.get_form(PluralForm::One), None);
    assert_eq!(f.insert_form(PluralForm::One, "one"), None);
    assert_eq!(f.insert_form(PluralForm::One, "one!"), Some("one"));
    assert_eq!(f.get_form(PluralForm::One), Some(&"one!"));
    assert_eq!(*f.get_form_or_other(PluralForm::Few), "other");
    assert_eq!(f.insert_form(PluralForm::Other, "o2"), Some("other"));
    let forms: Vec<(PluralForm, &&str)> = f.iter_forms();
    assert_eq!(forms, vec![(PluralForm::One, &"one!"), (PluralForm::Other, &"o2")]);
}

#[test]
fn plural_forms_from_pairs() {
    let f = PluralForms::try_from_iter(vec![
        (PluralForm::Few, 1),
        (PluralForm::Other, 2),
        (PluralForm::Few, 3),
    ])
    .unwrap();
    assert_eq!(f.get_form(PluralForm::Few), Some(&3));
    assert_eq!(f.get_form(PluralForm::Other), Some(&2));
    assert!(PluralForms::try_from_iter(vec![(PluralForm::One, 1)]).is_none());
    let mut b: Option<Box<i32>> = None;
    assert_eq!(replace_box_option(&mut b, 4), None);
    assert_eq!(replace_box_option(&mut b, 5), Some(4));
    assert_eq!(b, Some(Box::new(5)));
}

#[test]
fn possible_plural_keys() {
    assert_eq!(is_possible_plural("items_one"), Some(("items", PluralRuleType::Cardinal, PluralForm::One)));
    assert_eq!(
        is_possible_plural("place_ordinal_few"),
        Some(("place", PluralRuleType::Ordinal, PluralForm::Few))
    );
    assert_eq!(is_possible_plural("items_foo"), None);
    assert_eq!(is_possible_plural("items"), None);
}

#[test]
fn builder_key_and_sharing() {
    let value = ParsedValue::Bloc(vec![
        ParsedValue::Variable { key: key("var_b"), formatter: VarBound::Formatted(Formatter::Number(GroupingStrategy::Auto)) },
        ParsedValue::Component { key: key("comp_x"), inner: None, attributes: vec![] },
        ParsedValue::Variable { key: key("var_a"), formatter: VarBound::Unformatted },
        ParsedValue::Variable { key: key("var_b"), formatter: VarBound::Dummy },
    ]);
    let mut keys = InterpolationKeys::new();
    extract_value_keys(&value, &mut keys);
    assert_eq!(keys.components, vec![(key("comp_x"), CompInfos { self_closed: true })]);
    assert_eq!(keys.vars[0].0, key("var_a"));
    assert_eq!(keys.vars[1].1, VarInfos { bounds: vec![VarBound::Dummy, VarBound::Formatted(Formatter::Number(GroupingStrategy::Auto))], plural: false });
    assert_eq!(keys.generate_builder_key(), "i18n_builder_var_a_var_bdynumber_comp_xsf_");

    let mut s = String::from("x");
    InterpolationKeys::write_formatter_name(&mut s, "date-time2");
    assert_eq!(s, "xdate_time_");

    let mut idx = BuilderIndexer::new();
    let mut other = InterpolationKeys::new();
    extract_value_keys(&value, &mut other);
    let id1 = idx.push_keys(keys, KeyPath::new(None));
    let id2 = idx.push_keys(other, KeyPath::new_from_path(None, vec![key("k")]));
    assert_eq!(id1, BuilderId(0));
    assert_eq!(id2, BuilderId(0));
    let id3 = idx.push_keys(InterpolationKeys::new(), KeyPath::new(None));
    assert_eq!(id3, BuilderId(1));
    assert_eq!(BuilderId::default(), BuilderId(usize::MAX));
    let builders = idx.into_builders();
    assert_eq!(builders.len(), 2);
    assert_eq!(builders[0].0, BuilderId(0));
    assert_eq!(builders[0].1.name.name, "i18n_builder_var_a_var_bdynumber_comp_xsf_");
    assert_eq!(builders[0].1.used_by.len(), 2);
    assert_eq!(builders[1].0, BuilderId(1));
    assert_eq!(builders[1].1.name.name, "i18n_builder_");
    assert_eq!(builders[1].1.used_by.len(), 1);
}

#[test]
fn literal_join_and_types() {
    let mut l = Literal::Signed(-12);
    l.join(&Literal::Bool(true));
    assert_eq!(l, Literal::String("-12true".to_string(), usize::MAX));
    let mut l = Literal::String("a".to_string(), 3);
    l.join(&Literal::Unsigned(45));
    assert_eq!(l, Literal::String("a45".to_string(), 3));
}

#[test]
fn reduce_flattens_blocs() {
    let mut v = ParsedValue::Bloc(vec![
        ParsedValue::Literal(Literal::String("a".to_string(), usize::MAX)),
        ParsedValue::Bloc(vec![
            ParsedValue::Literal(Literal::String("".to_string(), usize::MAX)),
            ParsedValue::Literal(Literal::Unsigned(1)),
            ParsedValue::Default,
        ]),
        ParsedValue::Variable { key: key("var_x"), formatter: VarBound::Unformatted },
        ParsedValue::Literal(Literal::Bool(false)),
    ]);
    v.reduce();
    assert_eq!(
        v,
        ParsedValue::Bloc(vec![
            ParsedValue::Literal(Literal::String("a1".to_string(), usize::MAX)),
            ParsedValue::Variable { key: key("var_x"), formatter: VarBound::Unformatted },
            ParsedValue::Literal(Literal::Bool(false)),
        ])
    );
    let mut e = ParsedValue::Bloc(vec![ParsedValue::Default]);
    e.reduce();
    assert_eq!(e, ParsedValue::Literal(Literal::String(String::new(), usize::MAX)));
    let mut one = ParsedValue::Bloc(vec![ParsedValue::Literal(Literal::Signed(-3))]);
    one.reduce();
    assert_eq!(one, ParsedValue::Literal(Literal::Signed(-3)));
}

#[test]
fn extract_value_keys_records_attribute_variables() {
    let value = ParsedValue::Component {
        key: key("a"),
        inner: Some(Box::new(ParsedValue::Variable { key: key("var_x"), formatter: VarBound::Unformatted })),
        attributes: vec![leptos_i18n::value::Attribute {
            key: "href".to_string(),
            value: Some(leptos_i18n::value::AttributeValue::Variable(key("var_x"))),
        }],
    };
    let mut keys = InterpolationKeys::new();
    extract_value_keys(&value, &mut keys);
    assert_eq!(keys.vars, vec![(key("var_x"), VarInfos { bounds: vec![VarBound::Unformatted, VarBound::AttributeValue], plural: false })]);
    assert_eq!(keys.components, vec![(key("a"), CompInfos { self_closed: false })]);
}

#[test]
fn reduce_twice_changes_nothing() {
    let mut v = ParsedValue::Component {
        key: key("b"),
        inner: Some(Box::new(ParsedValue::Bloc(vec![
            ParsedValue::Bloc(vec![
                ParsedValue::Literal(Literal::String("x".to_string(), usize::MAX)),
                ParsedValue::Literal(Literal::Signed(-2)),
            ]),
            ParsedValue::Default,
            ParsedValue::Variable { key: key("var_y"), formatter: VarBound::Unformatted },
            ParsedValue::Bloc(vec![ParsedValue::Literal(Literal::String("".to_string(), usize::MAX))]),
        ]))),
        attributes: vec![],
    };
    v.reduce();
    let once = v.copy();
    assert_eq!(
        once,
        ParsedValue::Component {
            key: key("b"),
            inner: Some(Box::new(ParsedValue::Bloc(vec![
                ParsedValue::Literal(Literal::String("x-2".to_string(), usize::MAX)),
                ParsedValue::Variable { key: key("var_y"), formatter: VarBound::Unformatted },
            ]))),
            attributes: vec![],
        }
    );
    v.reduce();
    assert_eq!(v, once);
}
