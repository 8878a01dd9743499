use pollywiki::handbook::{
    clean_date, match_people, profile_is_current, to_position, HandbookIndividual,
    HandbookProfile, RoleRecord,
};
use pollywiki::schema::{Background, House, Person, PersonIds, PersonLinks, PositionKind, StateCode};

fn s(v: &str) -> Option<String> {
    Some(v.to_string())
}

fn person(slug: &str, name: &str) -> Person {
    Person {
        slug: slug.to_string(),
        name: name.to_string(),
        house: House::Representatives,
        state: None,
        electorate: None,
        group: "Example".to_string(),
        group_slug: "example".to_string(),
        since: None,
        ids: PersonIds { wikidata: None, tvfy: None, aph: None, aec_candidate: None },
        photo: None,
        links: PersonLinks { wikipedia: None },
        ai_note: None,
        background: None,
        positions: None,
        elections: None,
        stats: None,
    }
}

fn individual(given: Option<String>, preferred: Option<String>, family: Option<String>) -> HandbookIndividual {
    HandbookIndividual {
        phid: None,
        given_name: given,
        preferred_name: preferred,
        family_name: family,
        date_of_birth: None,
        place_of_birth: None,
        state_of_birth: None,
        country_of_birth: None,
        electorate: None,
        state_abbrev: None,
        occupations: None,
        qualifications: None,
        honours: None,
        parliamentary_positions: None,
        represented_parliaments: None,
        service_history_start: None,
    }
}

#[test]
fn roles_join_their_parts_and_keep_their_ministry() {
    let record = RoleRecord {
        role: s("Minister"),
        prep: s("for"),
        entity: s("Finance"),
        ministry: s("Example Ministry"),
        r_date_start: s("2025-05-03T00:00:00"),
        r_date_end: None,
    };
    let position = to_position(&record, PositionKind::Ministry);
    assert_eq!(position.role, "Minister for Finance");
    assert_eq!(position.ministry.as_deref(), Some("Example Ministry"));
    assert_eq!(position.from.as_deref(), Some("2025-05-03"));
    assert!(position.to.is_none(), "an open role has no end date");
}

#[test]
fn role_parts_that_are_absent_or_blank_are_skipped() {
    let record = RoleRecord {
        role: s("Speaker"),
        prep: s(""),
        entity: None,
        ministry: s(""),
        r_date_start: s(""),
        r_date_end: s(""),
    };
    let position = to_position(&record, PositionKind::Position);
    assert_eq!(position.role, "Speaker");
    assert!(
        position.ministry.is_none(),
        "an empty ministry is not a ministry"
    );
    assert!(position.from.is_none());
    assert!(position.to.is_none());
}

#[test]
fn the_open_end_sentinel_reads_as_no_end_date() {
    // The Handbook writes 1900-01-01 for roles that have not ended.
    assert_eq!(clean_date(Some("1900-01-01T00:00:00")), None);
    assert_eq!(
        clean_date(Some("2022-05-23T00:00:00")),
        Some("2022-05-23".to_string())
    );
    assert_eq!(clean_date(Some("")), None);
    assert_eq!(clean_date(None), None);
}

fn stored(phid: &str, at: &str) -> HandbookProfile {
    HandbookProfile {
        phid: phid.to_string(),
        stored_at: at.to_string(),
        background: Background {
            born: None,
            birthplace: None,
            occupations: Vec::new(),
            qualifications: Vec::new(),
            honours: Vec::new(),
            service_start: None,
            parliaments: Vec::new(),
        },
        positions: Vec::new(),
    }
}

#[test]
fn unparseable_timestamps_read_as_infinitely_old() {
    // 2026-01-10T00:00:00Z in milliseconds.
    let now: i64 = 1_768_003_200_000;
    assert!(!profile_is_current(Some(&stored("ABC", "not-a-date")), "ABC", now));
    assert!(!profile_is_current(Some(&stored("ABC", "2020-01-01T00:00:00Z")), "ABC", now));
    assert!(profile_is_current(Some(&stored("ABC", "2026-01-05T00:00:00Z")), "ABC", now));
    // A record for another id is never current.
    assert!(!profile_is_current(Some(&stored("XYZ", "2026-01-05T00:00:00Z")), "ABC", now));
    assert!(!profile_is_current(None, "ABC", now));
}

#[test]
fn individuals_match_on_given_or_preferred_name() {
    let people = vec![
        person("alex-paterson", "Alex Paterson"),
        person("jordan-nguyen", "Jordan Nguyen"),
    ];
    let individuals = vec![
        individual(s("Alexander"), s("(Alex)"), s("Paterson")),
        individual(s("Jordan"), None, s("Nguyen")),
    ];
    let matched = match_people(&individuals, &people);
    assert_eq!(matched.len(), 2);
    // The preferred name in brackets is what the canonical slug uses.
    assert!(matched.contains_key("alex-paterson"));
    assert!(matched.contains_key("jordan-nguyen"));
}

#[test]
fn a_diverging_first_name_falls_back_to_family_name_and_seat() {
    let mut mp = person("samantha-kelly", "Samantha Kelly");
    mp.electorate = Some("sampleford".to_string());
    let mut senator = person("morgan-rossi", "Morgan Rossi");
    senator.house = House::Senate;
    senator.state = Some(StateCode::TAS);
    senator.electorate = None;
    let people = vec![mp, senator];

    let mut sam = individual(s("Sam"), None, s("Kelly"));
    sam.electorate = s("Sampleford");
    let mut rossi = individual(s("M"), None, s("Rossi"));
    rossi.state_abbrev = s("tas");
    let individuals = vec![
        // Recorded as "Sam", matched on Kelly plus the electorate.
        sam,
        // Matched on Rossi plus the state.
        rossi,
        // Nothing to match on, so left out rather than guessed at.
        individual(s("Unknown"), None, s("Person")),
    ];
    let matched = match_people(&individuals, &people);
    assert_eq!(matched.len(), 2);
    assert!(matched.contains_key("samantha-kelly"));
    assert!(matched.contains_key("morgan-rossi"));
}

#[test]
fn an_ambiguous_family_name_is_left_unmatched() {
    let mut one = person("chris-smith", "Chris Smith");
    one.state = Some(StateCode::VIC);
    let mut two = person("dana-smith", "Dana Smith");
    two.state = Some(StateCode::VIC);
    let people = vec![one, two];
    let mut robin = individual(s("Robin"), None, s("Smith"));
    robin.state_abbrev = s("VIC");
    let individuals = vec![robin];
    // Two seat matches is not a match, so nothing is asserted about either.
    assert!(match_people(&individuals, &people).is_empty());
}
