use clink::deploy::{extract_slugs, governing_feature};
use clink::feature::{Enabled, Feature, FeatureList};
use clink::text::{contains, split};

fn list(items: &[&str]) -> Vec<String> {
    items.iter().map(|s| s.to_string()).collect()
}

#[test]
fn split_at_commas() {
    assert_eq!(split("a,b,c", ','), list(&["a", "b", "c"]));
}

#[test]
fn split_keeps_empty_pieces() {
    assert_eq!(split("", ','), list(&[""]));
    assert_eq!(split(",", ','), list(&["", ""]));
    assert_eq!(split("a,,b,", ','), list(&["a", "", "b", ""]));
    assert_eq!(split(",a", ','), list(&["", "a"]));
}

#[test]
fn split_without_separator_is_one_piece() {
    assert_eq!(split("abc", ','), list(&["abc"]));
}

#[test]
fn split_counts_characters_not_bytes() {
    assert_eq!(split("é,ü,日本", ','), list(&["é", "ü", "日本"]));
    assert_eq!(split("a→b→c", '→'), list(&["a", "b", "c"]));
}

#[test]
fn contains_compares_whole_strings() {
    let names = list(&["mac", "linux"]);
    assert!(contains(&names, &"mac".to_string()));
    assert!(contains(&names, &"linux".to_string()));
    assert!(!contains(&names, &"lin".to_string()));
    assert!(!contains(&names, &"".to_string()));
    assert!(!contains(&[], &"mac".to_string()));
}

#[test]
fn slugs_of_a_marked_name() {
    assert_eq!(extract_slugs("{mac,linux}app"), Some(list(&["mac", "linux"])));
    assert_eq!(extract_slugs("{vim}"), Some(list(&["vim"])));
    assert_eq!(extract_slugs("{a}{b}"), Some(list(&["a"])));
}

#[test]
fn slugs_keep_their_order_and_empty_segments() {
    assert_eq!(extract_slugs("{b,a}x"), Some(list(&["b", "a"])));
    assert_eq!(extract_slugs("{}x"), Some(list(&[""])));
    assert_eq!(extract_slugs("{,}"), Some(list(&["", ""])));
    assert_eq!(extract_slugs("{a,,b}"), Some(list(&["a", "", "b"])));
}

#[test]
fn slugs_end_at_the_first_closing_brace() {
    assert_eq!(extract_slugs("{a,b}c}d"), Some(list(&["a", "b"])));
    assert_eq!(extract_slugs("{a{b}c"), Some(list(&["a{b"])));
}

#[test]
fn no_slugs_without_a_leading_brace() {
    assert_eq!(extract_slugs("app"), None);
    assert_eq!(extract_slugs(""), None);
    assert_eq!(extract_slugs("x{mac}"), None);
    assert_eq!(extract_slugs(" {mac}"), None);
    assert_eq!(extract_slugs("}{mac}"), None);
}

#[test]
fn no_slugs_without_a_closing_brace() {
    assert_eq!(extract_slugs("{mac,linux"), None);
    assert_eq!(extract_slugs("{"), None);
}

#[test]
fn slugs_may_hold_any_characters() {
    assert_eq!(extract_slugs("{grün,日本}dir"), Some(list(&["grün", "日本"])));
}

fn enabled_registry() -> FeatureList {
    FeatureList(vec![
        Feature { slug: "mac".to_string(), target: "~/.config".to_string(), enabled: Enabled::MacOS },
        Feature { slug: "base".to_string(), target: "~".to_string(), enabled: Enabled::All },
    ])
}

#[test]
fn governing_feature_is_the_first_of_the_registry() {
    let features = enabled_registry();
    let found = governing_feature(&features, "{base,mac}nvim");
    assert_eq!(found.map(|f| f.slug.as_str()), Some("mac"));
}

#[test]
fn unmarked_directory_has_no_governing_feature() {
    let features = enabled_registry();
    assert_eq!(governing_feature(&features, "mac"), None);
    assert_eq!(governing_feature(&features, "nvim{mac}"), None);
    assert_eq!(governing_feature(&features, "{mac"), None);
}

#[test]
fn unknown_slugs_have_no_governing_feature() {
    let features = enabled_registry();
    assert_eq!(governing_feature(&features, "{linux,bsd}nvim"), None);
    assert_eq!(governing_feature(&features, "{}nvim"), None);
}
