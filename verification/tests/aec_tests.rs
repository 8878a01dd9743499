use indexmap::IndexMap;
use pollywiki::schema::Share;
use pollywiki::aec::{
    add_votes, aggregate_polling_places, event_name, is_informal_row, parse_csv,
    to_candidates, AecRow, BY_ELECTIONS,
};

fn row(pairs: &[(&str, &str)]) -> AecRow {
    let mut out: IndexMap<String, String> = IndexMap::new();
    for (k, v) in pairs {
        out.insert(k.to_string(), v.to_string());
    }
    out
}

/// The figure the site publishes for a share: votes / total * 100 rounded to
/// two places the way JavaScript's Math.round does.
fn published(share: Share) -> f64 {
    match share {
        Share::Of { votes, total } if total > 0 => ((votes as f64 / total as f64 * 100.0) * 100.0).round() / 100.0,
        Share::Of { .. } => 0.0,
        Share::Published { bits } => f64::from_bits(bits),
        Share::NotANumber => f64::NAN,
    }
}

#[test]
fn known_events_are_named_and_unknown_ones_are_not_invented() {
    assert_eq!(event_name("31496"), Some("2025 federal election"));
    assert_eq!(event_name("29807"), Some("2024 Cook by-election"));
    assert_eq!(event_name("99999"), None);
    // Every by-election id in the aggregation list is also a named event.
    for id in BY_ELECTIONS {
        if let Some(name) = event_name(id) {
            assert!(name.contains("by-election"), "{id} is named {name}");
        }
    }
}

#[test]
fn csv_parsing_skips_blank_rows_and_tolerates_short_ones() {
    let rows = parse_csv("DivisionNm,CandidateID,OrdinaryVotes\nWentworth,1,100\n\nWentworth,2\n")
        .expect("csv parses");
    assert_eq!(rows.len(), 2);
    assert_eq!(
        rows[0].get("OrdinaryVotes").map(String::as_str),
        Some("100")
    );
    // A short record fills the missing column rather than failing the file.
    assert_eq!(rows[1].get("OrdinaryVotes").map(String::as_str), Some(""));
}

#[test]
fn by_election_polling_places_sum_per_candidate() {
    let rows = vec![
        row(&[
            ("CandidateID", "1"),
            ("OrdinaryVotes", "100"),
            ("Surname", "One"),
        ]),
        row(&[
            ("CandidateID", "2"),
            ("OrdinaryVotes", "40"),
            ("Surname", "Two"),
        ]),
        row(&[
            ("CandidateID", "1"),
            ("OrdinaryVotes", "55"),
            ("Surname", "One"),
        ]),
        row(&[
            ("CandidateID", "1"),
            ("OrdinaryVotes", ""),
            ("Surname", "One"),
        ]),
    ];
    let totals = aggregate_polling_places(&rows);
    assert_eq!(totals.len(), 2, "one row per candidate");
    assert_eq!(totals[0].get("TotalVotes").map(String::as_str), Some("155"));
    assert_eq!(totals[1].get("TotalVotes").map(String::as_str), Some("40"));
    // By-elections publish no swing, so the column is blanked, not guessed.
    assert_eq!(totals[0].get("Swing").map(String::as_str), Some(""));
}

/// Bradfield's 2025 figures: 112,202 formal votes and 6,656 informal
/// ballots, 118,858 cast. The AEC gives the leading candidate 38.03%
/// and the informality rate as 5.60%.
fn bradfield_rows() -> Vec<AecRow> {
    let candidate = |id: &str, surname: &str, given: &str, party: &str, votes: &str, swing: &str| {
        row(&[
            ("DivisionNm", "Bradfield"),
            ("CandidateID", id),
            ("Surname", surname),
            ("GivenNm", given),
            ("PartyNm", party),
            ("TotalVotes", votes),
            ("Swing", swing),
        ])
    };
    vec![
        candidate("1", "KAPTERIAN", "GISELE", "Liberal", "42676", "-5.63"),
        candidate("2", "BOELE", "NICOLETTE", "", "30000", "3.40"),
        // The AEC's informal row sits among the candidates in file order.
        candidate("999", "Informal", "Informal", "Informal", "6656", "1.69"),
        candidate("3", "YIN", "ANDY", "Independent", "4635", "4.13"),
        candidate("4", "OTHER", "SAM", "Example Party", "34891", "-1.00"),
        // Another seat's rows never reach this one's totals.
        candidate("5", "ELSEWHERE", "PAT", "Example Party", "9999", "0"),
    ]
    .into_iter()
    .enumerate()
    .map(|(i, mut r)| {
        if i == 5 {
            r.insert("DivisionNm".to_string(), "Mackellar".to_string());
        }
        r
    })
    .collect()
}

#[test]
fn candidate_shares_are_of_formal_votes_and_informal_ballots_follow_them() {
    let results = to_candidates(&bradfield_rows(), "Bradfield");
    let (candidates, informal): (Vec<_>, Vec<_>) =
        results.iter().partition(|c| !c.is_informal());

    assert_eq!(candidates.len(), 4, "the informal row is not a candidate");
    let formal: i64 = candidates.iter().map(|c| c.votes).sum();
    assert_eq!(formal, 112_202);
    assert!(
        candidates.iter().all(|c| !c.name.contains("Informal")),
        "no candidate is named for the informal row"
    );
    // Every candidate's share is of the formal votes.
    assert!(candidates.iter().all(|c| matches!(c.pct, Share::Of { total: 112_202, .. })));
    let shares: f64 = candidates.iter().map(|c| published(c.pct)).sum();
    assert!((shares - 100.0).abs() <= 0.05, "candidate shares sum to {shares}");
    assert_eq!(candidates[0].name, "Gisele Kapterian");
    assert_eq!(candidates[0].pct, Share::Of { votes: 42_676, total: 112_202 });
    assert_eq!(published(candidates[0].pct), 38.03, "the AEC's figure");
    // A first-time candidate's swing is their share: the same base.
    let yin = candidates.iter().find(|c| c.name == "Andy Yin").unwrap();
    assert_eq!(published(yin.pct), 4.13);
    assert_eq!(yin.swing, Some("4.13".to_string()));
    // Ranked by votes, whatever order the file had them in.
    assert!(candidates.windows(2).all(|w| w[0].votes >= w[1].votes));

    // The informal ballots come last, named once, as a share of every
    // ballot cast, with the AEC's swing in informality.
    assert_eq!(informal.len(), 1);
    assert!(std::ptr::eq(informal[0], results.last().unwrap()));
    assert_eq!(informal[0].name, "Informal");
    assert_eq!(informal[0].party, "Informal");
    assert_eq!(informal[0].votes, 6656);
    assert_eq!(informal[0].pct, Share::Of { votes: 6656, total: 118_858 });
    assert_eq!(published(informal[0].pct), 5.60);
    assert_eq!(informal[0].swing, Some("1.69".to_string()));
    assert!(!informal[0].elected);
}

#[test]
fn a_file_with_no_informal_row_shares_out_every_vote_listed() {
    // Two-candidate-preferred files carry no informal row.
    let rows: Vec<AecRow> = bradfield_rows()
        .into_iter()
        .filter(|r| !is_informal_row(r))
        .collect();
    let results = to_candidates(&rows, "Bradfield");
    assert!(results.iter().all(|c| !c.is_informal()));
    let total: i64 = results.iter().map(|c| c.votes).sum();
    assert!(results.iter().all(|c| c.pct == Share::Of { votes: c.votes as u64, total: total as u64 }));
    let shares: f64 = results.iter().map(|c| published(c.pct)).sum();
    assert!((shares - 100.0).abs() <= 0.05, "shares sum to {shares}");
    // An empty seat divides nothing rather than dividing by zero.
    assert!(to_candidates(&rows, "Nowhere").is_empty());
}

#[test]
fn a_share_is_of_the_formal_votes_and_published_as_javascript_rounds_it() {
    let rows = vec![
        row(&[("DivisionNm", "Sampleford"), ("GivenNm", "A"), ("Surname", "B"), ("TotalVotes", "23")]),
        row(&[("DivisionNm", "Sampleford"), ("GivenNm", "C"), ("Surname", "D"), ("TotalVotes", "137")]),
    ];
    let results = to_candidates(&rows, "Sampleford");
    assert_eq!(results[1].pct, Share::Of { votes: 23, total: 160 });
    // 23 / 160 * 100 is 14.374999999999998 as a double: published as 14.37.
    assert_eq!(published(results[1].pct), 14.37);
    // A seat with no votes shares out nothing.
    let empty = vec![row(&[("DivisionNm", "Sampleford"), ("GivenNm", "E"), ("Surname", "F"), ("TotalVotes", "0")])];
    assert_eq!(published(to_candidates(&empty, "Sampleford")[0].pct), 0.0);
}

#[test]
fn vote_sums_saturate_rather_than_wrap() {
    assert_eq!(add_votes(2, 3), 5);
    assert_eq!(add_votes(u64::MAX, 1), u64::MAX);
}
