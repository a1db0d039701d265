use leptos_i18n::accepted_lang::{langs_by_rank, split_header, AcceptedLang};

/// The order key of a quality weight: `f32::total_cmp` order as an integer.
fn rank(q: Option<&str>) -> u32 {
    let v: f32 = q.map(|s| s.parse::<f32>().unwrap_or(1.0)).unwrap_or(1.0);
    let bits = v.to_bits();
    if bits & 0x8000_0000 != 0 {
        !bits
    } else {
        bits | 0x8000_0000
    }
}

fn parse_header(header: &str) -> Vec<String> {
    let parts = split_header(header);
    let ranks: Vec<u32> = parts.iter().map(|p| rank(p.quality.as_deref())).collect();
    langs_by_rank(parts, ranks)
}

#[test]
fn test_parse() {
    let parsed_lang = parse_header("fr-CH, fr;q=0.9, en;q=0.8, de;q=0.7, *;q=0.5");

    assert_eq!(parsed_lang, &["fr-CH", "fr", "en", "de", "*"]);
}

#[test]
fn test_parse_unsorted() {
    let parsed_lang = parse_header("q=0.3, fr-CH, fr;q=0.9, en;de;q=0.7, *;q=0.5");

    assert_eq!(parsed_lang, &["de", "en", "*", "fr-CH", "fr"]);
}

#[test]
fn split_header_keeps_weights_as_text() {
    let parts = split_header("q=0.3, fr-CH , fr;de");
    assert_eq!(parts.len(), 2);
    assert_eq!(parts[0].quality.as_deref(), Some("0.3"));
    assert_eq!(parts[0].langs, vec!["fr-CH".to_string(), "fr".to_string()]);
    assert_eq!(parts[1].quality, None);
    assert_eq!(parts[1].langs, vec!["de".to_string()]);
}

#[test]
fn equal_ranks_keep_header_order() {
    let parts = split_header("a;b;c");
    let out = langs_by_rank(parts, vec![1, 2, 1]);
    assert_eq!(out, &["b", "a", "c"]);
}

#[test]
fn find_first_lang_prefers_cookie() {
    let locales = vec!["en".to_string(), "fr".to_string(), "de".to_string()];
    let accepted = AcceptedLang::new(vec!["fr".to_string(), "en".to_string()], Some("de".to_string()));
    assert_eq!(accepted.find_first_lang(&locales), Some(&"de".to_string()));

    let accepted = AcceptedLang::new(vec!["it".to_string(), "fr".to_string(), "en".to_string()], None);
    assert_eq!(accepted.find_first_lang(&locales), Some(&"fr".to_string()));

    let accepted = AcceptedLang::new(vec!["it".to_string()], Some("es".to_string()));
    assert_eq!(accepted.find_first_lang(&locales), None);
}
