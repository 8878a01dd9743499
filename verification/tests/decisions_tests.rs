use indexmap::IndexMap;
use pollywiki::config::{
    json_accept, next_step, records_begin, request_headers, FetchOpts, FetchStep, USER_AGENT,
};
use pollywiki::schema::{
    Division, DivisionLinks, DivisionResult, House, Person, PersonIds, PersonLinks,
};
use pollywiki::summarise::{
    batches, bill_answers, bill_note_pending, division_answers, division_pending,
    person_note_due, accept_generated, accept_note, AiPersonNote, AiSummary, Gemini,
    GeminiError, RunBudget, DEFAULT_BASE_URL, DEFAULT_MODEL,
};
use pollywiki::tvfy::{
    absorb_window, apply_tvfy_ids, canonical_division_key, is_unchanged, later_date,
    summary_division_id, TvfyAfter, TvfyClient, TvfyDivisionSummary,
};

fn opts() -> FetchOpts {
    FetchOpts::default()
}

#[test]
fn a_fetch_retries_only_rate_limits_and_server_errors() {
    let o = opts();
    assert_eq!(next_step(&o, 200, 1), FetchStep::Done);
    assert_eq!(next_step(&o, 204, 4), FetchStep::Done);
    assert_eq!(next_step(&o, 404, 1), FetchStep::Fail);
    assert_eq!(next_step(&o, 429, 1), FetchStep::RetryAfter(20_000));
    assert_eq!(next_step(&o, 429, 2), FetchStep::RetryAfter(40_000));
    assert_eq!(next_step(&o, 503, 3), FetchStep::RetryAfter(6_000));
    assert_eq!(next_step(&o, 503, 4), FetchStep::Fail);
    let mut own = opts();
    own.max_attempts = Some(2);
    own.backoff_ms = Some(100);
    assert_eq!(next_step(&own, 500, 1), FetchStep::RetryAfter(100));
    assert_eq!(next_step(&own, 500, 2), FetchStep::Fail);
}

#[test]
fn request_headers_put_the_user_agent_first_and_let_callers_replace_it() {
    let plain = request_headers(&opts());
    assert_eq!(plain, vec![("user-agent".to_string(), USER_AGENT.to_string())]);

    let mut o = opts();
    o.accept = Some("text/html".to_string());
    let o = o.with_header("X-Extra", "1").with_header("User-Agent", "Mozilla/5.0");
    let h = request_headers(&o);
    assert_eq!(
        h,
        vec![
            ("user-agent".to_string(), "Mozilla/5.0".to_string()),
            ("accept".to_string(), "text/html".to_string()),
            ("X-Extra".to_string(), "1".to_string()),
        ]
    );
}

#[test]
fn json_requests_accept_json_unless_told_otherwise() {
    assert_eq!(json_accept(&opts()), "application/json");
    let mut o = opts();
    o.accept = Some("application/sparql-results+json".to_string());
    assert_eq!(json_accept(&o), "application/sparql-results+json");
}

#[test]
fn the_records_begin_with_the_newest_parliament() {
    let dates = vec!["2025-07-22".to_string(), "2022-07-26".to_string(), "2024-01-01".to_string()];
    assert_eq!(records_begin(Some(dates)), "2025-07-22");
    assert_eq!(records_begin(Some(Vec::new())), "9999-01-01");
    assert_eq!(records_begin(None), "9999-01-01");
}

fn summary(id: i64, date: &str, number: i64, ayes: i64, noes: i64) -> TvfyDivisionSummary {
    TvfyDivisionSummary {
        id,
        house: House::Representatives,
        date: date.to_string(),
        number,
        name: "Example".to_string(),
        aye_votes: ayes,
        no_votes: noes,
    }
}

#[test]
fn a_short_index_page_ends_the_walk() {
    let mut by_id: Vec<TvfyDivisionSummary> = Vec::new();
    let next = absorb_window(&mut by_id, vec![summary(1, "2026-02-03", 1, 10, 5), summary(2, "2026-02-01", 2, 3, 4)]);
    assert_eq!(next, None);
    assert_eq!(by_id.len(), 2);
    // The same division again replaces the earlier copy in place.
    let next = absorb_window(&mut by_id, vec![summary(1, "2026-02-03", 1, 11, 5)]);
    assert_eq!(next, None);
    assert_eq!(by_id.len(), 2);
    assert_eq!(by_id[0].aye_votes, 11);
}

#[test]
fn a_full_index_page_moves_the_window_to_its_oldest_date() {
    let mut by_id: Vec<TvfyDivisionSummary> = Vec::new();
    let page: Vec<TvfyDivisionSummary> = (0..100)
        .map(|i| summary(i, if i == 57 { "2025-11-02" } else { "2026-01-15" }, i, 1, 1))
        .collect();
    let next = absorb_window(&mut by_id, page);
    assert_eq!(next, Some("2025-11-02".to_string()));
    assert_eq!(by_id.len(), 100);
    // A full page that adds nothing new ends the walk.
    let again: Vec<TvfyDivisionSummary> = (0..100).map(|i| summary(i, "2026-01-15", i, 1, 1)).collect();
    assert_eq!(absorb_window(&mut by_id, again), None);
}

fn client(cap: u32) -> TvfyClient {
    TvfyClient {
        key: "k3y".to_string(),
        requests: 0,
        cap,
        ua_blocked: false,
        base: "https://theyvoteforyou.org.au/api/v1".to_string(),
    }
}

#[test]
fn the_tvfy_client_builds_urls_and_stops_at_its_cap() {
    let mut c = client(1);
    let params = vec![
        ("start_date".to_string(), "2026-01-01".to_string()),
        ("house".to_string(), "representatives".to_string()),
    ];
    let req = c.begin("divisions", &params).unwrap();
    assert_eq!(
        req.url,
        "https://theyvoteforyou.org.au/api/v1/divisions.json?start_date=2026-01-01&house=representatives&key=k3y"
    );
    assert!(!req.browser);
    let refused = c.begin("people", &Vec::new()).unwrap_err();
    assert_eq!(refused.cap, 1);
    assert_eq!(refused.message(), "TVFY request cap (1) reached");
    assert_eq!(c.requests, 2);
}

#[test]
fn a_refused_user_agent_is_retried_as_a_browser_and_remembered() {
    let mut c = client(10);
    assert_eq!(c.settle(false, false, "HTTP 403 Forbidden"), TvfyAfter::RetryAsBrowser);
    assert!(!c.ua_blocked);
    assert_eq!(c.settle(true, true, ""), TvfyAfter::Accept);
    assert!(c.ua_blocked);
    let req = c.begin("people", &Vec::new()).unwrap();
    assert!(req.browser);
    assert_eq!(c.settle(true, false, "HTTP 403 Forbidden"), TvfyAfter::Fail);
    assert_eq!(c.settle(false, false, "HTTP 500"), TvfyAfter::Fail);
}

fn stored_division(ayes: i64, noes: i64) -> Division {
    Division {
        id: "representatives/2026-02-03/1".to_string(),
        house: House::Representatives,
        date: "2026-02-03".to_string(),
        number: 1,
        name: "Example".to_string(),
        summary: None,
        summary_kind: None,
        ai_summary: None,
        result: DivisionResult::Passed,
        ayes,
        noes,
        bill_ids: Vec::new(),
        links: DivisionLinks { hansard: None, tvfy: None },
        votes: Vec::new(),
    }
}

#[test]
fn stored_divisions_with_the_same_tallies_are_not_fetched_again() {
    let s = summary(9, "2026-02-03", 1, 70, 60);
    assert_eq!(summary_division_id(&s), "representatives/2026-02-03/1");
    assert_eq!(
        canonical_division_key(&summary_division_id(&s)),
        "canonical/divisions/representatives-2026-02-03-1.json"
    );
    assert!(is_unchanged(Some(&stored_division(70, 60)), &s));
    assert!(!is_unchanged(Some(&stored_division(70, 59)), &s));
    assert!(!is_unchanged(None, &s));
    assert_eq!(later_date("2026-02-01".to_string(), "2026-02-03"), "2026-02-03");
    assert_eq!(later_date("2026-02-05".to_string(), "2026-02-03"), "2026-02-05");
}

fn person(slug: &str, tvfy: Option<i64>) -> Person {
    Person {
        slug: slug.to_string(),
        name: slug.to_string(),
        house: House::Senate,
        state: None,
        electorate: None,
        group: "Example".to_string(),
        group_slug: "example".to_string(),
        since: None,
        ids: PersonIds { wikidata: None, tvfy, aph: None, aec_candidate: None },
        photo: None,
        links: PersonLinks { wikipedia: None },
        ai_note: None,
        background: None,
        positions: None,
        elections: None,
        stats: None,
    }
}

#[test]
fn crosswalk_ids_are_written_and_only_changes_are_reported() {
    let mut people = vec![person("ann-a", Some(1)), person("bob-b", None), person("cat-c", Some(3))];
    let mut crosswalk: IndexMap<String, i64> = IndexMap::new();
    crosswalk.insert("ann-a".to_string(), 1);
    crosswalk.insert("bob-b".to_string(), 2);
    crosswalk.insert("cat-c".to_string(), 30);
    let changed = apply_tvfy_ids(&mut people, &crosswalk);
    assert_eq!(changed, vec![1, 2]);
    assert_eq!(people[0].ids.tvfy, Some(1));
    assert_eq!(people[1].ids.tvfy, Some(2));
    assert_eq!(people[2].ids.tvfy, Some(30));
}

#[test]
fn gemini_needs_a_key_and_defaults_the_rest() {
    assert_eq!(Gemini::from_values(None, None, None).unwrap_err(), GeminiError::MissingKey);
    let g = Gemini::from_values(Some("secret".to_string()), None, Some("12")).unwrap();
    assert_eq!(g.base_url, DEFAULT_BASE_URL);
    assert_eq!(g.model, DEFAULT_MODEL);
    assert_eq!(g.request_cap, 12);
    assert_eq!(g.min_interval_ms, 6500);
    assert_eq!(
        g.generate_url(),
        "https://generativelanguage.googleapis.com/v1beta/models/gemini-3.1-flash-lite:generateContent"
    );
    let mut other = Gemini::from_values(Some("secret".to_string()), Some("m".to_string()), Some("x")).unwrap();
    assert_eq!(other.request_cap, 80);
    other.base_url = "https://example.test/v1//".to_string();
    assert_eq!(other.generate_url(), "https://example.test/v1/models/m:generateContent");
    let o = other.request_opts();
    assert_eq!(o.min_interval_ms, Some(6500));
    assert_eq!(o.headers, vec![("x-goog-api-key".to_string(), "secret".to_string())]);
}

#[test]
fn empty_model_answers_are_refused() {
    assert_eq!(accept_generated(Some("[]".to_string())), Ok("[]".to_string()));
    assert_eq!(accept_generated(Some(String::new())), Err(GeminiError::EmptyResponse));
    assert_eq!(accept_generated(None), Err(GeminiError::EmptyResponse));
    assert_eq!(accept_note(Some("  A note. ")), Ok("A note.".to_string()));
    assert_eq!(accept_note(Some("   ")), Err(GeminiError::MissingNote));
    assert_eq!(accept_note(None), Err(GeminiError::MissingNote));
    assert_eq!(GeminiError::MissingNote.message(), "gemini: missing note field");
}

fn ai(version: Option<i64>) -> AiSummary {
    AiSummary {
        text: "x".to_string(),
        model: "m".to_string(),
        generated_at: "2026-01-01T00:00:00Z".to_string(),
        prompt_version: version,
    }
}

#[test]
fn summaries_are_pending_until_written_with_the_current_prompt() {
    let names = vec!["Sue Lines".to_string()];
    let mut d = stored_division(1, 0);
    assert!(!division_pending(&d, &names, None));
    d.summary = Some("Sue Lines\n\nThe question is that the bill be read.".to_string());
    assert!(division_pending(&d, &names, None));
    assert!(division_pending(&d, &names, Some(&ai(Some(2)))));
    assert!(!division_pending(&d, &names, Some(&ai(Some(3)))));
    d.summary = Some("A written summary.".to_string());
    assert!(!division_pending(&d, &names, None));

    assert!(bill_note_pending(None));
    assert!(bill_note_pending(Some(&ai(None))));
    assert!(!bill_note_pending(Some(&ai(Some(3)))));
}

fn note(votes: i64, version: Option<i64>) -> AiPersonNote {
    AiPersonNote {
        text: "x".to_string(),
        model: "m".to_string(),
        generated_at: "2026-01-01T00:00:00Z".to_string(),
        votes_considered: votes,
        prompt_version: version,
    }
}

#[test]
fn person_notes_follow_the_vote_count_and_prompt() {
    assert!(!person_note_due(9, None));
    assert!(person_note_due(10, None));
    assert!(!person_note_due(12, Some(&note(12, Some(3)))));
    assert!(person_note_due(13, Some(&note(12, Some(3)))));
    assert!(person_note_due(12, Some(&note(12, Some(2)))));
    assert!(person_note_due(12, Some(&note(12, None))));
}

#[test]
fn a_run_budget_stops_at_its_cap_and_after_five_failures() {
    let mut b = RunBudget::new(2);
    assert!(b.take_request());
    assert!(b.take_request());
    assert!(!b.take_request());
    for _ in 0..4 {
        assert!(!b.record_failure());
    }
    assert!(b.record_failure());
    assert_eq!(b.failed, 5);
}

#[test]
fn work_is_split_into_batches_of_eight() {
    assert_eq!(batches(0), Vec::<(usize, usize)>::new());
    assert_eq!(batches(8), vec![(0, 8)]);
    assert_eq!(batches(17), vec![(0, 8), (8, 16), (16, 17)]);
}

#[test]
fn model_answers_are_kept_only_for_the_batch() {
    let ids = vec!["a".to_string(), "b".to_string()];
    let rows = vec![
        (Some("a".to_string()), Some("  First. ".to_string())),
        (Some("z".to_string()), Some("Not asked.".to_string())),
        (Some("b".to_string()), Some(String::new())),
        (None, Some("No id.".to_string())),
        (Some("a".to_string()), Some("Second.".to_string())),
    ];
    let d = division_answers(&ids, &rows);
    assert_eq!(d.len(), 1);
    assert_eq!(d.get("a").map(String::as_str), Some("Second."));
    let b = bill_answers(&ids, &rows);
    assert_eq!(b.len(), 2);
    assert_eq!(b.get("a").map(String::as_str), Some("Second."));
    assert_eq!(b.get("b").map(String::as_str), Some(""));
    let order: Vec<&String> = b.keys().collect();
    assert_eq!(order, vec!["a", "b"]);
}

use pollywiki::aec::{
    by_election_state, body_after_title, download_url, downloads_base, election_key,
    electorate_key, event_label, is_by_election, raw_csv_key, seat_records, title_case,
    vote_count, AecRow,
};
use pollywiki::handbook::{
    listing_extra, next_skip, odata_encoded_url, odata_literal_url, odata_retry_literal,
    roles_filter, stamp_phid, usable_phid, HandbookIndividual,
};
use pollywiki::schema::{PartyFacts, Photo, StateCode};
use pollywiki::wikidata::{
    apply_name_overrides, commons_files, licence_of_page, licence_query_url, licence_titles,
    merge_ids, needs_mirror, party_groups, party_labels, photo_marker_key, select_party_facts,
    set_thumbs, stale_person_keys, thumb_store_key, Binding, RawMember,
};

#[test]
fn handbook_listing_pages_by_one_hundred() {
    assert_eq!(listing_extra(0), "&$top=100&$skip=0");
    assert_eq!(listing_extra(200), "&$top=100&$skip=200");
    assert_eq!(next_skip(0, 100), Some(100));
    assert_eq!(next_skip(100, 99), None);
    assert_eq!(roles_filter("R36"), "PHID eq 'R36'");
}

#[test]
fn handbook_queries_come_encoded_then_literal() {
    let endpoint = "https://handbookapi.aph.gov.au/api/individuals";
    assert_eq!(
        odata_encoded_url(endpoint, "PHID eq 'R36'", "&$top=100"),
        "https://handbookapi.aph.gov.au/api/individuals?%24filter=PHID%20eq%20'R36'&%24top=100"
    );
    assert_eq!(
        odata_literal_url(endpoint, "PHID eq 'R36'", "&$top=100"),
        "https://handbookapi.aph.gov.au/api/individuals?$filter=PHID%20eq%20%27R36%27&$top=100"
    );
    assert!(odata_retry_literal("HTTP 400 Bad Request"));
    assert!(!odata_retry_literal("HTTP 404 Not Found"));
}

fn individual(phid: Option<&str>) -> HandbookIndividual {
    HandbookIndividual {
        phid: phid.map(str::to_string),
        given_name: None,
        preferred_name: None,
        family_name: None,
        date_of_birth: None,
        place_of_birth: None,
        state_of_birth: None,
        country_of_birth: None,
        electorate: None,
        state_abbrev: None,
        occupations: None,
        qualifications: None,
        honours: None,
        parliamentary_positions: None,
        represented_parliaments: None,
        service_history_start: None,
    }
}

#[test]
fn a_handbook_id_is_stamped_once_on_the_first_match() {
    assert_eq!(usable_phid(&individual(Some("R36"))), Some("R36".to_string()));
    assert_eq!(usable_phid(&individual(Some(""))), None);
    assert_eq!(usable_phid(&individual(None)), None);

    let mut people = vec![person("ann-a", None), person("bob-b", None), person("bob-b", None)];
    assert_eq!(stamp_phid(&mut people, "bob-b", "R36"), Some(1));
    assert_eq!(people[1].ids.aph, Some("R36".to_string()));
    assert_eq!(people[2].ids.aph, None);
    assert_eq!(stamp_phid(&mut people, "bob-b", "R36"), None);
    assert_eq!(stamp_phid(&mut people, "zed-z", "R99"), None);
}

fn aec_row(pairs: &[(&str, &str)]) -> AecRow {
    let mut out: AecRow = IndexMap::new();
    for (k, v) in pairs {
        out.insert(k.to_string(), v.to_string());
    }
    out
}

#[test]
fn aec_keys_and_downloads_follow_the_event() {
    assert_eq!(electorate_key("bradfield"), "canonical/electorates/bradfield.json");
    assert_eq!(election_key("31496", "bradfield"), "canonical/elections/31496/bradfield.json");
    assert_eq!(raw_csv_key("31496", "HouseFirstPrefsByCandidateByVoteTypeDownload"), "raw/aec/31496/HouseFirstPrefsByCandidateByVoteTypeDownload.csv");
    let base = downloads_base("https://results.aec.gov.au", "31496");
    assert_eq!(base, "https://results.aec.gov.au/31496/Website/Downloads");
    assert_eq!(download_url(&base, "HouseCandidatesDownload", "31496"), "https://results.aec.gov.au/31496/Website/Downloads/HouseCandidatesDownload-31496.csv");
    assert!(is_by_election("31633"));
    assert!(!is_by_election("31496"));
    assert_eq!(event_label("31633"), "2026 Farrer by-election");
    assert_eq!(event_label("1"), "AEC event 1");
    assert_eq!(by_election_state(&[aec_row(&[("StateAb", "NSW")])]), "NSW");
    assert_eq!(by_election_state(&[]), "");
}

#[test]
fn aec_text_is_read_as_the_site_shows_it() {
    assert_eq!(body_after_title("2025 Federal Election\nA,B\n1,2\n"), "A,B\n1,2\n");
    assert_eq!(title_case("KAPTERIAN GISELE"), "Kapterian Gisele");
    assert_eq!(vote_count(" 42676 "), 42676);
    assert_eq!(vote_count(""), 0);
}

#[test]
fn a_seat_with_an_unknown_state_is_refused() {
    let err = seat_records("31496", "2025 federal election", "Bradfield", "XX", &[], &[]).unwrap_err();
    assert_eq!(err.state, "XX");
    assert_eq!(err.message(), "invalid state code: \"XX\"");
    let (seat, result) = seat_records("31496", "2025 federal election", "North Sydney", "NSW", &[], &[]).unwrap();
    let seat = seat.unwrap();
    assert_eq!(seat.slug, "north-sydney");
    assert_eq!(seat.state, StateCode::NSW);
    assert_eq!(result.electorate_slug, "north-sydney");
    assert!(result.first_prefs.is_empty());
    let (seat, result) = seat_records("31633", "2026 Farrer by-election", "Farrer", "NSW", &[], &[]).unwrap();
    assert!(seat.is_none());
    assert_eq!(result.event_id, "31633");
}

fn member(slug: &str, group: &str, group_slug: &str) -> Person {
    let mut p = person(slug, None);
    p.group = group.to_string();
    p.group_slug = group_slug.to_string();
    p
}

fn binding(pairs: &[(&str, &str)]) -> Binding {
    Binding { fields: pairs.iter().map(|(k, v)| (k.to_string(), v.to_string())).collect() }
}

#[test]
fn party_facts_are_asked_for_each_group_once() {
    let people = vec![
        member("a-a", "Example Party", "example-party"),
        member("b-b", "Independent", "independent"),
        member("c-c", "Sample \"Greens\"", "sample-greens"),
        member("d-d", "Example Party", "example-party"),
    ];
    let groups = party_groups(&people);
    let keys: Vec<&String> = groups.keys().collect();
    assert_eq!(keys, vec!["example-party", "sample-greens"]);
    assert_eq!(party_labels(&groups), "\"Example Party\"@en \"Sample Greens\"@en");

    let rows = vec![
        binding(&[("label", "Example Party"), ("inception", "1901-01-01T00:00:00Z"), ("website", "https://example.org")]),
        binding(&[("label", "Example Party"), ("inception", "1999-01-01T00:00:00Z")]),
        binding(&[("label", "Unrelated Party"), ("website", "https://elsewhere.org")]),
        binding(&[("label", "Sample Greens"), ("article", "https://en.wikipedia.org/wiki/Sample")]),
    ];
    let facts: Vec<(String, PartyFacts)> = select_party_facts(&rows, &groups);
    assert_eq!(facts.len(), 2);
    assert_eq!(facts[0].0, "example-party");
    assert_eq!(facts[0].1.founded, Some("1901-01-01".to_string()));
    assert_eq!(facts[0].1.website, Some("https://example.org".to_string()));
    assert_eq!(facts[0].1.wikipedia, None);
    assert_eq!(facts[1].0, "sample-greens");
    assert_eq!(facts[1].1.wikipedia, Some("https://en.wikipedia.org/wiki/Sample".to_string()));
}

fn raw(q: &str, name: &str, file: Option<&str>) -> RawMember {
    RawMember {
        wikidata: q.to_string(),
        name: name.to_string(),
        house: House::Representatives,
        group: None,
        district: None,
        commons_file: file.map(str::to_string),
        since: None,
        wikipedia: None,
    }
}

#[test]
fn wikidata_members_take_overrides_and_keep_other_sources_ids() {
    let mut members = vec![raw("Q1", "Wrong Label", Some("A.jpg")), raw("Q2", "Right Label", None)];
    let mut overrides: IndexMap<String, String> = IndexMap::new();
    overrides.insert("Q1".to_string(), "Proper Name".to_string());
    apply_name_overrides(&mut members, &overrides);
    assert_eq!(members[0].name, "Proper Name");
    assert_eq!(members[1].name, "Right Label");
    assert_eq!(commons_files(&members), vec!["A.jpg".to_string()]);

    let fresh = PersonIds { wikidata: Some("Q1".to_string()), tvfy: Some(9), aph: None, aec_candidate: None };
    let stored = PersonIds { wikidata: Some("Q0".to_string()), tvfy: Some(5), aph: Some("R36".to_string()), aec_candidate: Some(77) };
    let merged = merge_ids(&fresh, stored);
    assert_eq!(merged.wikidata, Some("Q1".to_string()));
    assert_eq!(merged.tvfy, Some(5));
    assert_eq!(merged.aph, Some("R36".to_string()));
    assert_eq!(merged.aec_candidate, Some(77));

    let people = vec![person("ann-a", None)];
    let keys = vec!["canonical/people/ann-a.json".to_string(), "canonical/people/gone-g.json".to_string()];
    assert_eq!(stale_person_keys(&people, &keys), vec!["canonical/people/gone-g.json".to_string()]);
}

#[test]
fn photos_are_mirrored_once_per_commons_file() {
    assert_eq!(photo_marker_key("ann-a"), "derived/img/people/ann-a.src.json");
    assert_eq!(thumb_store_key("ann-a", 320), "derived/img/people/ann-a-320.jpg");
    assert!(needs_mirror(None, "A.jpg"));
    assert!(needs_mirror(Some("B.jpg"), "A.jpg"));
    assert!(!needs_mirror(Some("A.jpg"), "A.jpg"));
    let mut photo = Photo {
        commons_file: "A.jpg".to_string(),
        url: "https://commons.wikimedia.org/wiki/Special:FilePath/A.jpg".to_string(),
        licence: "CC BY 4.0".to_string(),
        attribution: "Someone".to_string(),
        thumb: None,
        thumb_large: None,
    };
    set_thumbs(&mut photo, "ann-a");
    assert_eq!(photo.thumb, Some("/img/people/ann-a-96.jpg".to_string()));
    assert_eq!(photo.thumb_large, Some("/img/people/ann-a-320.jpg".to_string()));
    assert_eq!(photo.licence, "CC BY 4.0");
}

#[test]
fn commons_licences_are_asked_in_batches_and_read_per_page() {
    let titles = licence_titles(&["A.jpg".to_string(), "B c.jpg".to_string()]);
    assert_eq!(titles, "File:A.jpg|File:B c.jpg");
    assert_eq!(
        licence_query_url("https://commons.wikimedia.org/w/api.php", "File:A.jpg"),
        "https://commons.wikimedia.org/w/api.php?action=query&prop=imageinfo&iiprop=extmetadata&iiextmetadatafilter=LicenseShortName|Artist&format=json&titles=File%3AA.jpg"
    );
    let (file, licence) = licence_of_page("File:A.jpg", Some("CC BY-SA 4.0"), Some("<a href=\"x\">Jo Smith</a> "));
    assert_eq!(file, "A.jpg");
    assert_eq!(licence.licence, "CC BY-SA 4.0");
    assert_eq!(licence.attribution, "Jo Smith");
    let (file, licence) = licence_of_page("B.jpg", None, None);
    assert_eq!(file, "B.jpg");
    assert_eq!(licence.licence, "unknown");
    assert_eq!(licence.attribution, "Wikimedia Commons");
}

use pollywiki::derive::link_bills;
use pollywiki::schema::{Bill, BillLinks};
use pollywiki::slug::slugify;

#[test]
fn a_slug_slugifies_to_itself() {
    for name in ["Zo\u{eb} Daniel", "Pauline Hanson's One Nation", "Liberal\u{2013}National Coalition", "--"] {
        let once = slugify(name);
        assert_eq!(slugify(&once), once);
    }
    assert_eq!(slugify("anthony-albanese"), "anthony-albanese");
}

fn plain_bill(id: &str) -> Bill {
    Bill {
        id: id.to_string(),
        title: "A Bill".to_string(),
        parliament: 48,
        chamber: House::Representatives,
        bill_type: None,
        sponsor: None,
        portfolio: None,
        summary: None,
        ai_summary: None,
        status: "Before House of Representatives".to_string(),
        timeline: Vec::new(),
        links: BillLinks { aph: None, text: None, em: None, parlinfo: None },
        list_updated: None,
        sponsors: Vec::new(),
        movers: Vec::new(),
        division_ids: Vec::new(),
    }
}

#[test]
fn linking_bills_again_adds_nothing_and_never_repeats_a_division() {
    let mut d1 = stored_division(1, 0);
    d1.bill_ids = vec!["r7001".to_string(), "r7001".to_string()];
    let mut d2 = stored_division(1, 0);
    d2.id = "representatives/2026-02-03/2".to_string();
    d2.bill_ids = vec!["r7001".to_string()];
    let divisions = vec![d1, d2.clone(), d2];
    let mut bills = vec![plain_bill("r7001"), plain_bill("r7002")];
    link_bills(&mut bills, &divisions);
    let once = bills[0].division_ids.clone();
    assert_eq!(once, vec!["representatives/2026-02-03/1".to_string(), "representatives/2026-02-03/2".to_string()]);
    link_bills(&mut bills, &divisions);
    assert_eq!(bills[0].division_ids, once);
    assert!(bills[1].division_ids.is_empty());
}

use pollywiki::summarise::{division_prompt, same_day_lines, DIVISION_PROMPT_HEAD};

#[test]
fn a_division_prompt_names_the_cited_bills_and_the_days_other_divisions() {
    let mut d1 = stored_division(1, 0);
    d1.bill_ids = vec!["r7001".to_string(), "r9999".to_string()];
    let mut d2 = stored_division(1, 0);
    d2.id = "representatives/2026-02-03/2".to_string();
    d2.number = 2;
    d2.name = "Second".to_string();
    let mut other_day = stored_division(1, 0);
    other_day.id = "representatives/2026-02-04/1".to_string();
    other_day.date = "2026-02-04".to_string();
    let all = vec![d2.clone(), other_day, d1.clone()];
    assert_eq!(same_day_lines(&all, &d1), vec!["- (division 2) Second".to_string()]);

    let mut bills: IndexMap<String, Bill> = IndexMap::new();
    bills.insert("r7001".to_string(), plain_bill("r7001"));
    let prompt = division_prompt(&[d1], &all, &bills);
    let expected = format!(
        "{DIVISION_PROMPT_HEAD}<division id=\"representatives/2026-02-03/1\">\nMotion: Example (division 1 of the day)\nHouse: House of Representatives, Date: 2026-02-03\nRelated bills (official summaries):\n- A Bill: no official summary\nOther divisions in this chamber the same day, in order:\n- (division 2) Second\nOfficial record excerpt:\n\n</division>"
    );
    assert_eq!(prompt, expected);
}

use pollywiki::config::LocalStore;

#[test]
fn a_local_store_keeps_each_key_under_its_root() {
    let store = LocalStore::new(std::path::PathBuf::from("/srv/pollywiki"));
    assert_eq!(
        store.path("canonical/people/ann-a.json"),
        std::path::PathBuf::from("/srv/pollywiki/canonical/people/ann-a.json")
    );
}

use pollywiki::config::{min_interval_of, reserve_slot};

#[test]
fn requests_to_one_host_are_spaced_by_the_minimum_interval() {
    assert_eq!(min_interval_of(&opts()), 1000);
    assert_eq!(min_interval_of(&FetchOpts::min_interval(6500)), 6500);
    // The first request to a host goes at once.
    assert_eq!(reserve_slot(None, 50, 1000), (0, 50));
    // The next waits out the spacing from the last booking.
    assert_eq!(reserve_slot(Some(50), 300, 1000), (750, 1050));
    // Two requests booked back to back are a full interval apart.
    let (_, second) = reserve_slot(Some(1050), 300, 1000);
    assert_eq!(second, 2050);
    // A host idle for longer than the spacing is not made to wait.
    assert_eq!(reserve_slot(Some(50), 5000, 1000), (0, 5000));
}

use pollywiki::aec::aggregate_polling_places;

#[test]
fn polling_place_rows_sum_to_one_row_per_candidate_without_losing_votes() {
    let booth = |id: &str, votes: &str| aec_row(&[("CandidateID", id), ("OrdinaryVotes", votes), ("Swing", "1.5")]);
    let rows = vec![booth("1", "10"), booth("2", "7"), booth("1", "5"), booth("3", "")];
    let out = aggregate_polling_places(&rows);
    let totals: Vec<(&str, &str)> = out
        .iter()
        .map(|r| (r["CandidateID"].as_str(), r["TotalVotes"].as_str()))
        .collect();
    // An empty count is zero.
    assert_eq!(totals, vec![("1", "15"), ("2", "7"), ("3", "0")]);
    let sum: u64 = out.iter().map(|r| r["TotalVotes"].parse::<u64>().unwrap()).sum();
    assert_eq!(sum, 22);
    assert!(out.iter().all(|r| r["Swing"].is_empty()));
}

use pollywiki::aph::{check_listing, next_bills_page, EmptyListing};
use pollywiki::config::{request_host, HostError};
use pollywiki::derive::{classify_summaries, compute_vote_stats};
use pollywiki::schema::{AiText, DivisionLinks as Links, PersonLinks as PLinks, Vote, VoteCast};

#[test]
fn the_bill_listing_walks_full_pages_up_to_its_last_and_refuses_an_empty_list() {
    assert_eq!(next_bills_page(1, 100), Some(2));
    assert_eq!(next_bills_page(3, 42), None);
    assert_eq!(next_bills_page(10, 100), None);
    assert_eq!(check_listing(0), Err(EmptyListing));
    assert_eq!(EmptyListing.message(), "parlwork: zero bills parsed, refusing to write");
    assert_eq!(check_listing(3), Ok(()));
}

#[test]
fn a_url_with_no_host_is_rejected_before_any_request() {
    assert_eq!(request_host("https://theyvoteforyou.org.au/api/v1/people.json").unwrap(), "theyvoteforyou.org.au");
    let err = request_host("file:///etc/hosts").unwrap_err();
    assert!(matches!(err, HostError::NoHost));
    assert!(err.message("file:///etc/hosts").contains("no host"));
    assert!(matches!(request_host("not a url"), Err(HostError::Unparsable(_))));
}

#[test]
fn deriving_changes_only_the_field_each_step_owns() {
    let mut p = person("ann-a", Some(7));
    p.since = Some("2022-05-21".to_string());
    p.links = PLinks { wikipedia: Some("https://en.wikipedia.org/wiki/Ann".to_string()) };
    p.ai_note = Some(AiText { text: "Note.".to_string(), model: "m".to_string(), generated_at: "t".to_string() });
    let mut people = vec![p.clone()];
    let mut d = stored_division(1, 0);
    d.house = House::Senate;
    d.votes = vec![VoteCast { person_slug: "ann-a".to_string(), vote: Vote::Aye, teller: None, against_group_majority: Some(true) }];
    d.links = Links { hansard: Some("https://hansard.example/1".to_string()), tvfy: Some("https://tvfy.example/1".to_string()) };
    compute_vote_stats(&mut people, &[d.clone()]);
    let stats = people[0].stats.as_ref().unwrap();
    assert_eq!((stats.divisions_eligible, stats.divisions_voted, stats.against_group_majority), (1, 1, 1));
    assert_eq!(people[0].since, p.since);
    assert_eq!(people[0].links.wikipedia, p.links.wikipedia);
    assert_eq!(people[0].ai_note.as_ref().map(|n| n.text.clone()), Some("Note.".to_string()));
    assert_eq!(people[0].ids.tvfy, Some(7));

    d.summary = Some("A written summary.".to_string());
    let mut divisions = vec![d];
    classify_summaries(&mut divisions, &vec![], vec![None]);
    assert_eq!(divisions[0].links.hansard, Some("https://hansard.example/1".to_string()));
    assert_eq!(divisions[0].links.tvfy, Some("https://tvfy.example/1".to_string()));

    let mut bill = plain_bill("r7001");
    bill.ai_summary = Some(AiText { text: "Plain.".to_string(), model: "m".to_string(), generated_at: "t".to_string() });
    bill.links.aph = Some("https://www.aph.gov.au/r7001".to_string());
    let mut bills = vec![bill];
    link_bills(&mut bills, &divisions);
    assert_eq!(bills[0].links.aph, Some("https://www.aph.gov.au/r7001".to_string()));
    assert_eq!(bills[0].ai_summary.as_ref().map(|a| a.text.clone()), Some("Plain.".to_string()));
}

use pollywiki::aph::{carries_html_entity, dot_net_date};
use pollywiki::html::strip_html;
use pollywiki::wikidata::is_free_licence;

#[test]
fn any_decimal_digit_counts_where_the_patterns_say_digit() {
    // A licence version in Arabic-Indic digits is still a version.
    assert!(is_free_licence("CC BY \u{664}.0"));
    assert!(!is_free_licence("CC BY x"));
    // A decimal reference in other digits is a reference: detected, and
    // dropped when decoded since only ASCII digits name a character.
    let mut bill = plain_bill("r7001");
    bill.title = "A &#\u{663}; B".to_string();
    assert!(carries_html_entity(&bill));
    assert_eq!(strip_html("a&#\u{663};b"), "ab");
    assert_eq!(strip_html("a&#65;b"), "aAb");
}

#[test]
fn a_dot_net_date_reads_only_ascii_timestamps_and_offset_parts() {
    assert_eq!(dot_net_date(Some("/Date(1755043200000-1000)/")).as_deref(), Some("2025-08-12"));
    // The first match decides: its digits are not ASCII, so there is no date.
    assert_eq!(dot_net_date(Some("/Date(\u{663})/ /Date(1755043200000)/")), None);
    // An offset in two-byte digits reads as no offset at all...
    assert_eq!(dot_net_date(Some("/Date(1755043200000-\u{661}\u{660}\u{660}\u{660})/")).as_deref(), Some("2025-08-13"));
    // ...and one whose first digit is two bytes reads its last three as minutes.
    assert_eq!(dot_net_date(Some("/Date(1755043200000-\u{661}123)/")).as_deref(), Some("2025-08-12"));
}

use pollywiki::aec::{to_candidates, votes_readable};
use pollywiki::schema::Share;

#[test]
fn vote_counts_read_as_javascript_reads_whole_numbers() {
    assert_eq!(vote_count("60000.0"), 60000);
    assert_eq!(vote_count(" +42 "), 42);
    assert_eq!(vote_count("7."), 7);
    assert_eq!(vote_count(".0"), 0);
    assert!(votes_readable(""));
    assert!(votes_readable("60000.00"));
    assert!(!votes_readable("sixty"));
    assert!(!votes_readable("."));
    assert!(!votes_readable("1.0.0"));
}

#[test]
fn a_count_that_is_not_a_number_spoils_the_seats_shares() {
    let row = |given: &str, votes: &str| aec_row(&[("DivisionNm", "Sampleford"), ("GivenNm", given), ("Surname", "X"), ("TotalVotes", votes)]);
    let ok = to_candidates(&[row("A", "600.0"), row("B", "400")], "Sampleford");
    assert_eq!(ok[0].votes, 600);
    assert_eq!(ok[0].pct, Share::Of { votes: 600, total: 1000 });
    let spoiled = to_candidates(&[row("A", "600"), row("B", "n/a")], "Sampleford");
    assert_eq!(spoiled[0].votes, 600);
    assert_eq!(spoiled[1].votes, 0);
    assert!(spoiled.iter().all(|c| c.pct == Share::NotANumber));
}

#[test]
fn a_booth_count_that_is_not_a_number_shows_the_total_as_nan() {
    let booth = |id: &str, votes: &str| aec_row(&[("CandidateID", id), ("OrdinaryVotes", votes)]);
    let out = aggregate_polling_places(&[booth("1", "10"), booth("2", "?"), booth("1", "5.0"), booth("2", "3")]);
    assert_eq!(out[0]["TotalVotes"], "15");
    assert_eq!(out[1]["TotalVotes"], "NaN");
}
