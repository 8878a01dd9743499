use indexmap::IndexMap;
use pollywiki::aec::{to_candidates, AecRow};
use pollywiki::aph::dot_net_date;
use pollywiki::config::parse_options;
use pollywiki::schema::Share;
use pollywiki::tvfy::key_for;

fn row(pairs: &[(&str, &str)]) -> AecRow {
    let mut out: IndexMap<String, String> = IndexMap::new();
    for (k, v) in pairs {
        out.insert(k.to_string(), v.to_string());
    }
    out
}

#[test]
fn aec_to_candidates_filters_computes_and_sorts() {
    let rows = vec![
        row(&[
            ("DivisionNm", "Bean"),
            ("GivenNm", "DAVID"),
            ("Surname", "SMITH"),
            ("PartyNm", "Australian Labor Party"),
            ("PartyAb", "ALP"),
            ("TotalVotes", "60000"),
            ("Swing", "1.25"),
            ("Elected", "Y"),
        ]),
        row(&[
            ("DivisionNm", "Bean"),
            ("GivenNm", "Jessie"),
            ("Surname", "PRICE"),
            ("PartyNm", "Independent"),
            ("PartyAb", "IND"),
            ("TotalVotes", "40000"),
            ("Swing", ""),
            ("Elected", "N"),
        ]),
        row(&[
            ("DivisionNm", "Fenner"),
            ("GivenNm", "Andrew"),
            ("Surname", "LEIGH"),
            ("PartyNm", "Australian Labor Party"),
            ("PartyAb", "ALP"),
            ("TotalVotes", "70000"),
            ("Swing", "2.0"),
            ("Elected", "Y"),
        ]),
    ];
    let candidates = to_candidates(&rows, "Bean");
    assert_eq!(candidates.len(), 2);
    assert_eq!(candidates[0].name, "David Smith");
    assert_eq!(candidates[0].party, "Australian Labor Party");
    assert_eq!(candidates[0].votes, 60000);
    // The share is of the seat's formal votes: 60% when published.
    assert_eq!(candidates[0].pct, Share::Of { votes: 60000, total: 100_000 });
    assert_eq!(candidates[0].swing, Some("1.25".to_string()));
    assert!(candidates[0].elected);
    assert_eq!(candidates[1].swing, None);
}

#[test]
fn aec_title_cases_mc_prefixes() {
    let rows = vec![row(&[
        ("DivisionNm", "Bean"),
        ("GivenNm", "MICHAEL"),
        ("Surname", "MCCORMACK"),
        ("PartyNm", "Australian Labor Party"),
        ("PartyAb", "ALP"),
        ("TotalVotes", "60000"),
        ("Swing", "1.25"),
        ("Elected", "Y"),
    ])];
    let candidates = to_candidates(&rows, "Bean");
    assert_eq!(candidates[0].name, "Michael McCormack");
}

#[test]
fn options_default_to_the_documented_values() {
    let options = parse_options(&Vec::new());
    assert_eq!(options.store, "local");
    assert_eq!(options.sources, vec!["wikidata", "aec-profiles"]);
    assert_eq!(options.event, "31496");
    assert!(!options.rebuild);
}

#[test]
fn options_read_flags_and_trim_the_source_list() {
    let args: Vec<String> = [
        "--store",
        "s3",
        "--sources",
        "aph, tvfy ,handbook",
        "--event",
        "31633",
        "--rebuild",
    ]
    .iter()
    .map(|s| s.to_string())
    .collect();
    let options = parse_options(&args);
    assert_eq!(options.store, "s3");
    assert_eq!(options.sources, vec!["aph", "tvfy", "handbook"]);
    assert_eq!(options.event, "31633");
    assert!(options.rebuild);
}

#[test]
fn a_flag_with_no_value_falls_back_to_the_default() {
    let options = parse_options(&vec!["--event".to_string()]);
    assert_eq!(options.event, "31496");
}

#[test]
fn tvfy_key_for_flattens_division_ids() {
    assert_eq!(
        key_for("representatives/2025-07-24/3"),
        "representatives-2025-07-24-3"
    );
}

#[test]
fn dot_net_dates_apply_the_event_offset() {
    assert_eq!(
        dot_net_date(Some("/Date(1764075600000+1100)/")),
        Some("2025-11-26".to_string())
    );
    assert_eq!(dot_net_date(Some("nope")), None);
}
