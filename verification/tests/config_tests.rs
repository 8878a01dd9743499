use pollywiki::collate::js_compare;
use pollywiki::config::{content_type_for, split_bucket, Endpoints};
use pollywiki::js_url::encode_uri_component;
use pollywiki::slug::slugify;
use std::cmp::Ordering;

#[test]
fn a_sources_own_spacing_stands_unless_the_config_overrides_it() {
    let production = Endpoints::default();
    assert_eq!(production.opts(1200).min_interval_ms, Some(1200));
    assert_eq!(production.opts(400).min_interval_ms, Some(400));
    assert_eq!(production.opts(400).backoff_ms, None);
    assert!(production.tvfy.starts_with("https://"));

    let test = Endpoints::at("http://127.0.0.1:1");
    assert_eq!(test.opts(1200).min_interval_ms, Some(1));
    assert_eq!(test.opts(400).backoff_ms, Some(1));
}

#[test]
fn encoding_matches_javascript_encode_uri_component() {
    // The reserved set JavaScript leaves alone.
    assert_eq!(encode_uri_component("-_.!~*'()"), "-_.!~*'()");
    assert_eq!(encode_uri_component("a b"), "a%20b");
    assert_eq!(encode_uri_component("a/b?c=d&e"), "a%2Fb%3Fc%3Dd%26e");
    assert_eq!(encode_uri_component("O'Brien"), "O'Brien");
    // Non-ASCII goes out as utf-8 percent triples.
    assert_eq!(encode_uri_component("Ni\u{f1}o"), "Ni%C3%B1o");
    assert_eq!(encode_uri_component(""), "");
}

#[test]
fn content_types_match_key_suffixes() {
    assert_eq!(
        content_type_for("bundles/people.jsonl"),
        "application/x-ndjson"
    );
    assert_eq!(
        content_type_for("state/sync-status.json"),
        "application/json"
    );
    assert_eq!(content_type_for("raw/aec/x.csv"), "text/csv");
    assert_eq!(
        content_type_for("derived/img/people/a-96.jpg"),
        "image/jpeg"
    );
    assert_eq!(content_type_for("mystery.bin"), "application/octet-stream");
}

#[test]
fn a_bucket_may_carry_a_prefix_and_must_not_be_empty() {
    assert_eq!(
        split_bucket("pollywiki.au/data").unwrap(),
        ("pollywiki.au".to_string(), "data/".to_string())
    );
    // No prefix, and a trailing slash with nothing after it, are the same.
    assert_eq!(
        split_bucket("pollywiki.au").unwrap(),
        ("pollywiki.au".to_string(), String::new())
    );
    assert_eq!(
        split_bucket("pollywiki.au/").unwrap(),
        ("pollywiki.au".to_string(), String::new())
    );
    assert_eq!(
        split_bucket("/data").unwrap_err().message(),
        "invalid bucket: /data"
    );
}

#[test]
fn slugify_handles_punctuation_and_diacritics() {
    assert_eq!(slugify("Anthony Albanese"), "anthony-albanese");
    assert_eq!(
        slugify("Pauline Hanson's One Nation"),
        "pauline-hansons-one-nation"
    );
    assert_eq!(
        slugify("Liberal\u{2013}National Coalition"),
        "liberal-national-coalition"
    );
    assert_eq!(slugify("Zo\u{eb} Daniel"), "zoe-daniel");
    assert_eq!(slugify("O'Brien"), "obrien");
}

#[test]
fn js_compare_orders_like_locale_compare() {
    assert_eq!(js_compare("Aged Care", "ANZAC Day"), Ordering::Less);
    assert_eq!(js_compare("a", "b"), Ordering::Less);
}
