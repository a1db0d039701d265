use leptos_i18n::context::Context;
use leptos_i18n::error::Error;
use leptos_i18n::formatter::FormatterFeatures;
use leptos_i18n::key::{Key, KeyPath};
use leptos_i18n::value::{ForeignKey, Literal, ParsedValue, VarBound};

fn features() -> FormatterFeatures {
    FormatterFeatures { currency: true, nums: true, datetime: true, list: true }
}

fn new_key(key: &str) -> Key {
    Key::new(key).unwrap()
}

fn new_parsed_value(value: &str) -> ParsedValue {
    let key_path = KeyPath::new(None);
    let locale = new_key("locale_key");
    let ctx = Context { key_path: &key_path, locale: &locale, features: features() };
    let mut diag: Vec<Error> = Vec::new();
    let p = ParsedValue::new(value, &ctx, &mut diag).unwrap();
    if let Some(err) = diag.first() {
        panic!("{:?}", err);
    }
    p
}

fn lit(s: &str) -> ParsedValue {
    ParsedValue::Literal(Literal::String(s.to_string(), usize::MAX))
}

#[test]
fn parse_normal_string() {
    let value = new_parsed_value("test");

    assert_eq!(value, ParsedValue::Literal(Literal::String("test".to_string(), usize::MAX)));
}

#[test]
fn parse_variable() {
    let value = new_parsed_value("before {{ var }} after");

    assert_eq!(
        value,
        ParsedValue::Bloc(vec![
            lit("before "),
            ParsedValue::Variable { key: new_key("var_var"), formatter: VarBound::Unformatted },
            lit(" after"),
        ])
    )
}

#[test]
fn parse_comp() {
    let value = new_parsed_value("<comp1/>hello<comp2 />from<comp3/> before <comp>inner</comp> after");

    assert_eq!(
        value,
        ParsedValue::Bloc(vec![
            ParsedValue::Component { key: new_key("comp_comp1"), inner: None, attributes: vec![] },
            lit("hello"),
            ParsedValue::Component { key: new_key("comp_comp2"), inner: None, attributes: vec![] },
            lit("from"),
            ParsedValue::Component { key: new_key("comp_comp3"), inner: None, attributes: vec![] },
            lit(" before "),
            ParsedValue::Component {
                key: new_key("comp_comp"),
                inner: Some(Box::new(lit("inner"))),
                attributes: vec![],
            },
            lit(" after"),
        ])
    )
}

#[test]
fn parse_nested_comp() {
    let value =
        new_parsed_value("before <comp>inner before<comp>inner inner</comp>inner after</comp> after");

    assert_eq!(
        value,
        ParsedValue::Bloc(vec![
            lit("before "),
            ParsedValue::Component {
                key: new_key("comp_comp"),
                inner: Some(Box::new(ParsedValue::Bloc(vec![
                    lit("inner before"),
                    ParsedValue::Component {
                        key: new_key("comp_comp"),
                        inner: Some(Box::new(lit("inner inner"))),
                        attributes: vec![],
                    },
                    lit("inner after"),
                ]))),
                attributes: vec![],
            },
            lit(" after"),
        ])
    )
}

#[test]
fn parse_skipped_tag() {
    let value = new_parsed_value("<p>test<h3>this is a h3</h3>not closing p");

    assert_eq!(
        value,
        ParsedValue::Bloc(vec![
            lit("<p>test"),
            ParsedValue::Component {
                key: new_key("comp_h3"),
                inner: Some(Box::new(lit("this is a h3"))),
                attributes: vec![],
            },
            lit("not closing p"),
        ])
    )
}

#[test]
fn test_parsing_namespaces() {
    let value = new_parsed_value("before $t(second_namespace:common_key) after");

    assert_eq!(
        value,
        ParsedValue::Bloc(vec![
            lit("before "),
            ParsedValue::ForeignKey(ForeignKey::NotSet(
                KeyPath::new_from_path(Some(new_key("second_namespace")), vec![new_key("common_key")]),
                vec![],
            )),
            lit(" after"),
        ])
    );
}
