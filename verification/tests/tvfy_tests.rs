use indexmap::IndexMap;
use pollywiki::schema::{DivisionResult, House, Person, PersonIds, PersonLinks, StateCode, Vote};
use pollywiki::tvfy::{
    iso_days_before, key_for, match_people, request_cap, start_date, state_code_for, to_division,
    OfficialId, TvfyBillRef, TvfyDivisionDetail, TvfyMemberSummary, TvfyName, TvfyPersonRef,
    TvfyPersonSummary, TvfyVote, TvfyVoteMember,
};

fn person(slug: &str, name: &str, house: House) -> Person {
    Person {
        slug: slug.to_string(),
        name: name.to_string(),
        house,
        state: None,
        electorate: None,
        group: "Example".to_string(),
        group_slug: "example".to_string(),
        since: None,
        ids: PersonIds { wikidata: None, tvfy: None, aph: None, aec_candidate: None },
        photo: None,
        links: PersonLinks { wikipedia: None },
        ai_note: None,
        background: None,
        positions: None,
        elections: None,
        stats: None,
    }
}

fn summary(id: i64, first: &str, last: &str, electorate: &str, house: House) -> TvfyPersonSummary {
    TvfyPersonSummary {
        id,
        latest_member: TvfyMemberSummary {
            name: TvfyName { first: first.to_string(), last: last.to_string() },
            electorate: electorate.to_string(),
            house,
            party: "Example".to_string(),
        },
    }
}

fn vote(id: i64, first: &str, last: &str, party: &str, v: Vote) -> TvfyVote {
    TvfyVote {
        member: TvfyVoteMember {
            person: TvfyPersonRef { id },
            first_name: first.to_string(),
            last_name: last.to_string(),
            party: party.to_string(),
        },
        vote: v,
    }
}

#[test]
fn state_codes_cover_every_senate_seat_name() {
    for (seat, code) in [
        ("New South Wales", "NSW"),
        ("victoria", "VIC"),
        ("QUEENSLAND", "QLD"),
        ("Western Australia", "WA"),
        ("South Australia", "SA"),
        ("Tasmania", "TAS"),
        ("Australian Capital Territory", "ACT"),
        ("Northern Territory", "NT"),
    ] {
        assert_eq!(state_code_for(seat), Some(code), "{seat}");
    }
    // A House electorate is not a state name.
    assert_eq!(state_code_for("Wentworth"), None);
}

#[test]
fn people_match_by_name_then_by_seat() {
    let tvfy = vec![
        summary(10, "Alex", "Paterson", "Sampleford", House::Representatives),
        summary(11, "Sam", "Kelly", "Queensland", House::Senate),
        summary(12, "Nobody", "Here", "Nowhere", House::Senate),
    ];

    let mut senator = person("sam-kelly", "Sam Kelly", House::Senate);
    senator.state = Some(StateCode::QLD);
    let people = vec![
        person("alex-paterson", "Alex Paterson", House::Representatives),
        senator,
    ];

    let crosswalk = match_people(&tvfy, &people);
    assert_eq!(crosswalk.get("alex-paterson"), Some(&10));
    assert_eq!(crosswalk.get("sam-kelly"), Some(&11));
    // Unmatched TVFY people are reported, never invented.
    assert_eq!(crosswalk.len(), 2);
}

#[test]
fn duplicate_names_are_split_by_chamber_and_seat() {
    let tvfy = vec![summary(20, "Jane", "Smith", "Tasmania", House::Senate)];

    let mut senator = person("jane-smith-senate", "Jane Smith", House::Senate);
    senator.state = Some(StateCode::TAS);
    let people = vec![
        person("jane-smith", "Jane Smith", House::Representatives),
        senator,
    ];

    // Two canonical people share the name, so the seat decides.
    let crosswalk = match_people(&tvfy, &people);
    assert_eq!(crosswalk.get("jane-smith-senate"), Some(&20));
    assert!(!crosswalk.contains_key("jane-smith"));
}

#[test]
fn divisions_normalise_ids_results_and_crossings() {
    let d = TvfyDivisionDetail {
        id: 1,
        house: House::Representatives,
        date: "2026-08-12".to_string(),
        number: 7,
        name: "Bills \u{2014} Example Bill 2026; Second Reading".to_string(),
        aye_votes: 2,
        no_votes: 1,
        summary: Some("  Context.  ".to_string()),
        bills: Some(vec![
            TvfyBillRef {
                id: 99,
                title: "Example".to_string(),
                official_id: Some(OfficialId::Text("r7123".to_string())),
            },
            TvfyBillRef {
                id: 100,
                title: "Numbered".to_string(),
                official_id: Some(OfficialId::Number("4242".to_string())),
            },
            TvfyBillRef { id: 101, title: "Bare".to_string(), official_id: None },
        ]),
        votes: vec![
            vote(10, "Alex", "Paterson", "Example Party", Vote::Aye),
            vote(11, "Jordan", "Nguyen", "Example Party", Vote::Aye),
            vote(99, "Casey", "O'Brien", "Example Party", Vote::No),
        ],
    };
    let mut crosswalk: IndexMap<String, i64> = IndexMap::new();
    crosswalk.insert("alex-paterson".to_string(), 10);
    crosswalk.insert("jordan-nguyen".to_string(), 11);

    let division = to_division(&d, &crosswalk);
    assert_eq!(division.id, "representatives/2026-08-12/7");
    assert_eq!(division.result, DivisionResult::Passed);
    assert_eq!((division.ayes, division.noes), (2, 1));
    // Summary is trimmed; empty ones drop out entirely.
    assert_eq!(division.summary.as_deref(), Some("Context."));
    // Official ids win over TVFY's internal ids, whatever their JSON type.
    assert_eq!(division.bill_ids, vec!["r7123", "4242", "101"]);
    assert_eq!(
        division.links.tvfy.as_deref(),
        Some("https://theyvoteforyou.org.au/divisions/representatives/2026-08-12/7")
    );

    // Unknown TVFY ids fall back to a slug of the member's name.
    let slugs: Vec<&str> = division
        .votes
        .iter()
        .map(|v| v.person_slug.as_str())
        .collect();
    assert_eq!(
        slugs,
        vec!["alex-paterson", "jordan-nguyen", "casey-obrien"]
    );
    // The party voted 2-1 aye, so only the no vote crossed.
    let crossed: Vec<Option<bool>> = division
        .votes
        .iter()
        .map(|v| v.against_group_majority)
        .collect();
    assert_eq!(crossed, vec![None, None, Some(true)]);
}

#[test]
fn a_tied_party_has_no_majority_to_cross() {
    let d = TvfyDivisionDetail {
        id: 2,
        house: House::Senate,
        date: "2026-08-12".to_string(),
        number: 1,
        name: "Tied".to_string(),
        aye_votes: 1,
        no_votes: 1,
        summary: Some("   ".to_string()),
        bills: None,
        votes: vec![
            vote(1, "A", "One", "Split Party", Vote::Aye),
            vote(2, "B", "Two", "Split Party", Vote::No),
        ],
    };
    let division = to_division(&d, &IndexMap::new());
    assert_eq!(division.result, DivisionResult::Rejected);
    assert!(
        division.summary.is_none(),
        "whitespace-only summary must drop"
    );
    assert!(division.bill_ids.is_empty());
    assert!(division
        .votes
        .iter()
        .all(|v| v.against_group_majority.is_none()));
}

#[test]
fn division_keys_and_date_windows() {
    assert_eq!(
        key_for("representatives/2026-08-12/7"),
        "representatives-2026-08-12-7"
    );
    assert_eq!(iso_days_before("2026-08-12", 30).unwrap(), "2026-07-13");
    assert_eq!(iso_days_before("2026-01-01", 1).unwrap(), "2025-12-31");
    assert!(iso_days_before("not-a-date", 1).is_err());
}

#[test]
fn the_first_window_opens_with_the_parliament_and_later_ones_overlap() {
    assert_eq!(start_date(None).unwrap(), "2025-07-01");
    assert_eq!(start_date(Some("2026-08-12")).unwrap(), "2026-07-29");
    assert!(start_date(Some("garbage")).is_err());
}

#[test]
fn the_tvfy_request_cap_falls_back_to_its_default() {
    assert_eq!(request_cap(None), 500);
    assert_eq!(request_cap(Some("25")), 25);
    assert_eq!(request_cap(Some("+7")), 7);
    assert_eq!(request_cap(Some("lots")), 500);
    assert_eq!(request_cap(Some("-1")), 500);
    assert_eq!(request_cap(Some("4294967296")), 500);
}
