use pollywiki::aec_profiles::ElectorateProfile;
use pollywiki::derive::{
    attach_election_history, attach_party_facts, attach_person_records, attach_profiles,
    bills_bundle, build_parties, classify_summaries, compute_vote_stats, divisions_bundle,
    electorates_bundle, latest_results, link_bill_records, link_bills, link_electorates,
    parties_bundle, people_bundle, quick_search, results_bundle, title_from_slug,
};
use pollywiki::handbook::HandbookProfile;
use pollywiki::schema::{
    Background, Bill, BillLinks, BillRaiser, CandidateResult, Division, DivisionLinks,
    DivisionResult, Electorate, ElectorateProfileFacts, ElectorateResult, House, PartyFacts,
    Person, PersonIds, PersonLinks, PositionKind, PositionRecord, Share, StateCode, SummaryKind,
    TimelineStep, Vote, VoteCast,
};
use pollywiki::summarise::{AiPersonNote, AiSummary};

fn person(slug: &str, name: &str, house: House, state: StateCode) -> Person {
    Person {
        slug: slug.to_string(),
        name: name.to_string(),
        house,
        state: Some(state),
        electorate: None,
        group: "Example Party".to_string(),
        group_slug: "example-party".to_string(),
        since: None,
        ids: PersonIds { wikidata: None, tvfy: None, aph: None, aec_candidate: None },
        photo: None,
        links: PersonLinks { wikipedia: None },
        ai_note: None,
        background: None,
        positions: None,
        elections: None,
        stats: None,
    }
}

fn electorate(slug: &str, name: &str, state: StateCode, member: Option<&str>) -> Electorate {
    Electorate {
        slug: slug.to_string(),
        name: name.to_string(),
        state,
        member_slug: member.map(str::to_string),
        profile: None,
        enrolment: None,
    }
}

fn division(id: &str, house: House, date: &str, number: i64, bills: &[&str], votes: Vec<VoteCast>) -> Division {
    Division {
        id: id.to_string(),
        house,
        date: date.to_string(),
        number,
        name: "Example".to_string(),
        summary: None,
        summary_kind: None,
        ai_summary: None,
        result: DivisionResult::Passed,
        ayes: 1,
        noes: 0,
        bill_ids: bills.iter().map(|b| b.to_string()).collect(),
        links: DivisionLinks { hansard: None, tvfy: None },
        votes,
    }
}

fn cast(slug: &str, vote: Vote, crossed: Option<bool>) -> VoteCast {
    VoteCast { person_slug: slug.to_string(), vote, teller: None, against_group_majority: crossed }
}

fn raiser(name: &str, phid: Option<&str>) -> BillRaiser {
    BillRaiser { name: name.to_string(), phid: phid.map(str::to_string), slug: None }
}

fn bill(id: &str, title: &str, status: &str, movers: Vec<BillRaiser>, sponsors: Vec<BillRaiser>) -> Bill {
    Bill {
        id: id.to_string(),
        title: title.to_string(),
        parliament: 48,
        chamber: House::Representatives,
        bill_type: None,
        sponsor: None,
        portfolio: None,
        summary: None,
        ai_summary: None,
        status: status.to_string(),
        timeline: vec![TimelineStep {
            date: "2026-08-01".to_string(),
            event: "Introduced (House of Representatives)".to_string(),
        }],
        links: BillLinks { aph: None, text: None, em: None, parlinfo: None },
        list_updated: None,
        sponsors,
        movers,
        division_ids: Vec::new(),
    }
}

fn result(event: &str, name: &str, slug: &str, candidate: &str, votes: i64, elected: bool) -> ElectorateResult {
    ElectorateResult {
        event_id: event.to_string(),
        event_name: name.to_string(),
        electorate_slug: slug.to_string(),
        electorate_name: "Sampleford".to_string(),
        state: StateCode::VIC,
        first_prefs: if candidate.is_empty() {
            Vec::new()
        } else {
            vec![CandidateResult {
                name: candidate.to_string(),
                party: "Example Party".to_string(),
                party_code: None,
                votes,
                pct: Share::Published { bits: 55.5f64.to_bits() },
                swing: None,
                elected,
            }]
        },
        tcp: Vec::new(),
    }
}

/// A whole canonical store, run through every verified
/// step in the order the bundle build takes them.
#[test]
fn derive_steps_assemble_every_bundle_from_the_canonical_records() {
    let mut alex = person("alex-paterson", "Alex Paterson", House::Representatives, StateCode::VIC);
    alex.electorate = Some("sampleford".to_string());
    alex.ids.aph = Some("ALEX1".to_string());
    let rossi = person("morgan-rossi", "Morgan Rossi", House::Senate, StateCode::TAS);
    let mut people = vec![alex, rossi];
    let mut electorates = vec![
        electorate("sampleford", "Sampleford", StateCode::VIC, Some("alex-paterson")),
        electorate("placeholder-bay", "Placeholder Bay", StateCode::NSW, None),
    ];
    let mut divisions = vec![
        division(
            "representatives/2026-08-12/2",
            House::Representatives,
            "2026-08-12",
            2,
            &["r100"],
            vec![cast("alex-paterson", Vote::Aye, Some(true))],
        ),
        division(
            "senate/2026-07-01/1",
            House::Senate,
            "2026-07-01",
            1,
            &[],
            vec![cast("morgan-rossi", Vote::No, None)],
        ),
    ];
    let mut bills = vec![
        bill("r100", "Example Bill 2026", "Before Senate", vec![raiser("Alex Paterson", Some("alex1"))], Vec::new()),
        bill(
            "r200",
            "Another Bill 2026",
            "Act",
            Vec::new(),
            vec![raiser("Morgan Rossi", None), raiser("Someone Retired", None)],
        ),
    ];
    let elections = vec![
        result("27966", "2022 federal election", "sampleford", "Alex Paterson", 100, false),
        result("31496", "2025 federal election", "sampleford", "Alex Paterson", 200, true),
        result("31496", "2025 federal election", "abolished", "", 0, false),
    ];

    link_electorates(&mut people, &mut electorates);
    let names: Vec<String> = people.iter().map(|p| p.name.clone()).collect();
    classify_summaries(&mut divisions, &names, vec![None, None]);
    let profile = HandbookProfile {
        phid: "ALEX1".to_string(),
        stored_at: "2026-08-01T00:00:00.000Z".to_string(),
        background: Background {
            born: Some("1970-01-01".to_string()),
            birthplace: None,
            occupations: vec!["Grazier".to_string()],
            qualifications: Vec::new(),
            honours: Vec::new(),
            service_start: None,
            parliaments: Vec::new(),
        },
        positions: vec![PositionRecord {
            role: "Prime Minister".to_string(),
            ministry: None,
            kind: PositionKind::Ministry,
            from: Some("2025-05-03".to_string()),
            to: None,
        }],
    };
    attach_person_records(&mut people, vec![None, None], vec![Some(profile), None]);
    link_bill_records(&mut bills, vec![None, None], &people);
    attach_election_history(&mut people, &elections);
    attach_profiles(
        &mut electorates,
        vec![
            Some(ElectorateProfile {
                stored_at: "2026-08-01T00:00:00.000Z".to_string(),
                profile: ElectorateProfileFacts {
                    name_derivation: None,
                    location: None,
                    area: Some("142 sq km".to_string()),
                    gazetted: None,
                    first_contested: None,
                    demographic: Some("Inner metropolitan".to_string()),
                },
                enrolment: Some(118432),
            }),
            None,
        ],
    );
    compute_vote_stats(&mut people, &divisions);
    link_bills(&mut bills, &divisions);
    let mut parties = build_parties(&people, &Vec::new());
    let facts = PartyFacts {
        founded: None,
        website: Some("https://example.org.au/".to_string()),
        wikipedia: Some("https://en.wikipedia.org/wiki/Example".to_string()),
    };
    attach_party_facts(&mut parties, vec![Some(facts)]);
    let current = latest_results(elections, &electorates);
    let quick = quick_search(&bills, &people, &electorates);

    let people = people_bundle(people);
    assert_eq!(
        people.iter().map(|p| p.slug.as_str()).collect::<Vec<_>>(),
        vec!["alex-paterson", "morgan-rossi"],
        "people are written in slug order"
    );
    let alex = &people[0];
    assert_eq!(
        alex.background.as_ref().map(|b| b.occupations.clone()),
        Some(vec!["Grazier".to_string()])
    );
    assert_eq!(alex.positions.as_ref().map(|p| p.len()), Some(1), "positions come from the handbook record");
    let history = alex.elections.as_ref().expect("election history");
    assert_eq!(history.iter().map(|e| e.event.as_str()).collect::<Vec<_>>(), vec!["31496", "27966"]);
    assert!(history[0].elected);
    let stats = alex.stats.as_ref().expect("stats");
    assert_eq!(
        (stats.divisions_eligible, stats.divisions_voted, stats.against_group_majority),
        (1, 1, 1)
    );
    assert_eq!(people[1].stats.as_ref().expect("stats").against_group_majority, 0);

    let divisions = divisions_bundle(divisions);
    assert_eq!(
        divisions.iter().map(|d| d.id.as_str()).collect::<Vec<_>>(),
        vec!["representatives/2026-08-12/2", "senate/2026-07-01/1"]
    );

    let bills = bills_bundle(bills);
    assert_eq!(
        bills.iter().map(|b| b.title.as_str()).collect::<Vec<_>>(),
        vec!["Another Bill 2026", "Example Bill 2026"]
    );
    let example = bills.iter().find(|b| b.id == "r100").unwrap();
    assert_eq!(example.division_ids, vec!["representatives/2026-08-12/2"]);
    assert_eq!(example.movers[0].slug.as_deref(), Some("alex-paterson"), "phid match is case-insensitive");
    let another = bills.iter().find(|b| b.id == "r200").unwrap();
    assert_eq!(another.sponsors[0].slug.as_deref(), Some("morgan-rossi"));
    assert!(another.sponsors[1].slug.is_none(), "a raiser who is not a sitting member stays unlinked");

    let electorates = electorates_bundle(electorates);
    let sampleford = electorates.iter().find(|e| e.slug == "sampleford").unwrap();
    assert_eq!(sampleford.enrolment, Some(118432));
    assert_eq!(sampleford.profile.as_ref().and_then(|p| p.area.clone()), Some("142 sq km".to_string()));
    assert!(electorates.iter().find(|e| e.slug == "placeholder-bay").unwrap().profile.is_none());

    let parties = parties_bundle(parties);
    assert_eq!(parties.len(), 1);
    let seats = parties[0].seats.as_ref().expect("seats");
    assert_eq!((seats.representatives, seats.senate), (1, 1));
    assert!(parties[0].facts.is_some(), "party facts are merged in");
    assert_eq!(parties[0].name, "Example Party");

    let current = results_bundle(current);
    assert_eq!(current.len(), 1);
    assert_eq!(current[0].event_id, "31496");
    assert_eq!(current[0].electorate_slug, "sampleford");

    let kinds: Vec<&str> = quick.iter().map(|e| e.t.as_str()).collect();
    assert_eq!(kinds, vec!["bill", "bill", "person", "person", "electorate", "electorate"]);
    assert!(quick[0].slug == "r100" || quick[0].slug == "r200", "bills are indexed by id");
    assert!(quick.iter().any(|e| e.sub == "Before Senate"));
    assert_eq!(quick[2].sub, "MP \u{b7} Sampleford");
    assert_eq!(quick[3].sub, "Senator \u{b7} TAS");
    assert_eq!(quick[4].sub, "Electorate \u{b7} VIC");
}

#[test]
fn derive_over_nothing_gives_empty_bundles() {
    assert!(people_bundle(Vec::new()).is_empty());
    assert!(parties_bundle(Vec::new()).is_empty());
    assert!(electorates_bundle(Vec::new()).is_empty());
    assert!(divisions_bundle(Vec::new()).is_empty());
    assert!(bills_bundle(Vec::new()).is_empty());
    assert!(results_bundle(latest_results(Vec::new(), &[])).is_empty());
    assert!(quick_search(&[], &[], &[]).is_empty());
}

#[test]
fn a_seat_decided_at_a_by_election_shows_that_result() {
    let electorates = vec![electorate("sampleford", "Sampleford", StateCode::VIC, None)];
    let results = vec![
        result("31496", "2025 federal election", "sampleford", "A", 1, true),
        result("31633", "2026 Farrer by-election", "sampleford", "B", 1, true),
        result("29807", "2024 Cook by-election", "sampleford", "C", 1, true),
    ];
    let current = latest_results(results, &electorates);
    assert_eq!(current.len(), 1);
    assert_eq!(current[0].event_id, "31633");
}

#[test]
fn divisions_on_one_day_order_by_padded_number() {
    let divisions = vec![
        division("representatives/2026-08-12/2", House::Representatives, "2026-08-12", 2, &[], Vec::new()),
        division("representatives/2026-08-12/10", House::Representatives, "2026-08-12", 10, &[], Vec::new()),
        division("senate/2026-08-12/10", House::Senate, "2026-08-12", 10, &[], Vec::new()),
    ];
    let ordered = divisions_bundle(divisions);
    assert_eq!(
        ordered.iter().map(|d| d.id.as_str()).collect::<Vec<_>>(),
        vec!["senate/2026-08-12/10", "representatives/2026-08-12/10", "representatives/2026-08-12/2"]
    );
}

#[test]
fn a_slug_reads_back_as_a_title() {
    assert_eq!(title_from_slug(Some("placeholder-bay")), "Placeholder Bay");
    assert_eq!(title_from_slug(Some("o-connor")), "O Connor");
    assert_eq!(title_from_slug(None), "");
}

#[test]
fn a_transcript_summary_takes_the_stored_ai_text() {
    let mut d = division("representatives/2026-08-12/1", House::Representatives, "2026-08-12", 1, &[], Vec::new());
    d.summary = Some("Sue Lines\nThe question is that...".to_string());
    let mut written = d.clone();
    written.summary = Some("Written context.".to_string());
    let mut divisions = vec![d, written];
    let ai = AiSummary {
        text: "Context.".to_string(),
        model: "m".to_string(),
        generated_at: "2026-08-13T00:00:00.000Z".to_string(),
        prompt_version: Some(3),
    };
    classify_summaries(&mut divisions, &vec!["Sue Lines".to_string()], vec![Some(ai.clone()), Some(ai)]);
    assert_eq!(divisions[0].summary_kind, Some(SummaryKind::Transcript));
    assert_eq!(divisions[0].ai_summary.as_ref().map(|t| t.text.as_str()), Some("Context."));
    assert_eq!(divisions[1].summary_kind, Some(SummaryKind::Summary));
    assert!(divisions[1].ai_summary.is_none(), "a written summary keeps no AI text");
}

#[test]
fn a_stored_note_is_attached_to_its_person() {
    let mut people = vec![person("morgan-rossi", "Morgan Rossi", House::Senate, StateCode::TAS)];
    let note = AiPersonNote {
        text: "Voted in one division.".to_string(),
        model: "m".to_string(),
        generated_at: "2026-08-13T00:00:00.000Z".to_string(),
        votes_considered: 12,
        prompt_version: Some(3),
    };
    attach_person_records(&mut people, vec![Some(note)], vec![None]);
    assert_eq!(people[0].ai_note.as_ref().map(|t| t.text.as_str()), Some("Voted in one division."));
    assert!(people[0].background.is_none());
}
