use leptos_i18n::routing::{
    get_locale_from_path, get_new_path, localize_path, match_path_segments, PathBuilder, PathSegment, PrefixDefault,
};

fn st(s: &str) -> PathSegment {
    PathSegment::Static(s.to_string())
}

#[test]
fn path_builder_joins_trimmed_pieces() {
    let mut b = PathBuilder::new();
    assert_eq!(b.build(), "/");
    b.push("/base/");
    b.push("//");
    b.push("fr");
    assert_eq!(b.build(), "/base/fr");
    assert_eq!(PrefixDefault::default(), PrefixDefault::Never);
}

#[test]
fn segments_match() {
    let route = vec![st("about"), PathSegment::Param("id".to_string()), PathSegment::OptionalParam("x".to_string())];
    assert_eq!(match_path_segments(&vec!["about", "42"], &route), None);
    assert_eq!(match_path_segments(&vec!["about", "42", "x"], &route), Some(vec![2]));
    assert_eq!(match_path_segments(&vec!["other", "42"], &route), None);
    let splat = vec![st("docs"), PathSegment::Splat("rest".to_string())];
    assert_eq!(match_path_segments(&vec!["docs", "a", "b"], &splat), Some(vec![]));
}

#[test]
fn localize_rewrites_statics() {
    let old = vec![vec![st("about"), PathSegment::Param("id".to_string())]];
    let new = vec![vec![st("a-propos"), PathSegment::Param("id".to_string())]];
    let mut b = PathBuilder::new();
    b.push("fr");
    assert_eq!(localize_path("/about/42", &old, &new, &mut b), Some(()));
    assert_eq!(b.build(), "/fr/a-propos/42");
    let mut b = PathBuilder::new();
    assert_eq!(localize_path("/nowhere", &old, &new, &mut b), None);
    assert_eq!(b.build(), "/");
}

#[test]
fn locale_from_path() {
    let locales = vec!["en".to_string(), "fr".to_string()];
    assert_eq!(get_locale_from_path("/app/fr/page", "/app", &locales), Some(&"fr".to_string()));
    assert_eq!(get_locale_from_path("/app/de/page", "app", &locales), None);
    assert_eq!(get_locale_from_path("/other/fr", "/app", &locales), None);
}

#[test]
fn new_path_for_locale_switch() {
    let old = vec![vec![st("about")]];
    let new = vec![vec![st("a-propos")]];
    let p = get_new_path("/about", "q=1", "#top", "/", "fr", false, None, Some(&old), Some(&new));
    assert_eq!(p, "/fr/a-propos?q=1#top");
    let p = get_new_path("/fr/a-propos", "", "", "/", "en", true, Some("fr"), Some(&new), Some(&old));
    assert_eq!(p, "/about");
    let p = get_new_path("/x/y", "", "", "/", "de", false, Some("en"), None, None);
    assert_eq!(p, "/de/x/y");
}
