//! Entity schemas: everything the ingest writes and the site reads.
//!
//! Shares and swings, which the site prints as JavaScript numbers, are held
//! here exactly: a share as the votes and the total it is taken of (or the
//! bits of a figure already published), a swing as the decimal text the
//! results file gave.

use vstd::prelude::*;

verus! {

#[derive(Debug, Clone, Copy, PartialEq, Eq, Structural)]
pub enum House {
    Representatives,
    Senate,
}

pub open spec fn house_name(h: House) -> Seq<char> {
    match h {
        House::Representatives => "representatives"@,
        House::Senate => "senate"@,
    }
}

impl House {
    pub fn as_str(self) -> (r: &'static str)
        ensures
            r@ == house_name(self),
    {
        match self {
            House::Representatives => "representatives",
            House::Senate => "senate",
        }
    }
}

#[derive(Debug, Clone, Copy, PartialEq, Eq, Structural)]
pub enum StateCode {
    NSW,
    VIC,
    QLD,
    WA,
    SA,
    TAS,
    ACT,
    NT,
}

pub open spec fn state_name(s: StateCode) -> Seq<char> {
    match s {
        StateCode::NSW => "NSW"@,
        StateCode::VIC => "VIC"@,
        StateCode::QLD => "QLD"@,
        StateCode::WA => "WA"@,
        StateCode::SA => "SA"@,
        StateCode::TAS => "TAS"@,
        StateCode::ACT => "ACT"@,
        StateCode::NT => "NT"@,
    }
}

/// The state whose code is exactly `v`, if any.
pub open spec fn state_of_code(v: Seq<char>) -> Option<StateCode> {
    if v == "NSW"@ {
        Some(StateCode::NSW)
    } else if v == "VIC"@ {
        Some(StateCode::VIC)
    } else if v == "QLD"@ {
        Some(StateCode::QLD)
    } else if v == "WA"@ {
        Some(StateCode::WA)
    } else if v == "SA"@ {
        Some(StateCode::SA)
    } else if v == "TAS"@ {
        Some(StateCode::TAS)
    } else if v == "ACT"@ {
        Some(StateCode::ACT)
    } else if v == "NT"@ {
        Some(StateCode::NT)
    } else {
        None
    }
}

impl StateCode {
    pub fn as_str(self) -> (r: &'static str)
        ensures
            r@ == state_name(self),
    {
        match self {
            StateCode::NSW => "NSW",
            StateCode::VIC => "VIC",
            StateCode::QLD => "QLD",
            StateCode::WA => "WA",
            StateCode::SA => "SA",
            StateCode::TAS => "TAS",
            StateCode::ACT => "ACT",
            StateCode::NT => "NT",
        }
    }

    pub fn parse(value: &str) -> (r: Option<StateCode>)
        ensures
            r == state_of_code(value@),
    {
        if crate::text::str_eq(value, "NSW") {
            Some(StateCode::NSW)
        } else if crate::text::str_eq(value, "VIC") {
            Some(StateCode::VIC)
        } else if crate::text::str_eq(value, "QLD") {
            Some(StateCode::QLD)
        } else if crate::text::str_eq(value, "WA") {
            Some(StateCode::WA)
        } else if crate::text::str_eq(value, "SA") {
            Some(StateCode::SA)
        } else if crate::text::str_eq(value, "TAS") {
            Some(StateCode::TAS)
        } else if crate::text::str_eq(value, "ACT") {
            Some(StateCode::ACT)
        } else if crate::text::str_eq(value, "NT") {
            Some(StateCode::NT)
        } else {
            None
        }
    }
}

/// Parsing a state's own code gives the state back, and only the eight codes
/// parse at all.
pub proof fn law_state_code_round_trip(s: StateCode, v: Seq<char>)
    ensures
        state_of_code(state_name(s)) == Some(s),
        state_of_code(v) matches Some(t) ==> v == state_name(t),
{
    reveal_strlit("NSW");
    reveal_strlit("VIC");
    reveal_strlit("QLD");
    reveal_strlit("WA");
    reveal_strlit("SA");
    reveal_strlit("TAS");
    reveal_strlit("ACT");
    reveal_strlit("NT");
    let codes = seq!["NSW"@, "VIC"@, "QLD"@, "WA"@, "SA"@, "TAS"@, "ACT"@, "NT"@];
    assert forall|i: int, j: int| 0 <= i < j < 8 implies codes[i] != codes[j] by {
        if codes[i].len() == codes[j].len() {
            if codes[i][0] == codes[j][0] {
                assert(codes[i][1] != codes[j][1]);
            }
        }
    }
    assert(codes[0] != codes[1]);
}

#[derive(Debug, Clone)]
pub struct Photo {
    pub commons_file: String,
    pub url: String,
    pub licence: String,
    pub attribution: String,
    /// Site-relative mirrored thumbnails, set once the image sync has run.
    pub thumb: Option<String>,
    pub thumb_large: Option<String>,
}

#[derive(Debug, Clone, Copy, PartialEq, Eq, Structural)]
pub enum PositionKind {
    Ministry,
    Shadow,
    Position,
}

#[derive(Debug, Clone)]
pub struct PositionRecord {
    pub role: String,
    pub ministry: Option<String>,
    pub kind: PositionKind,
    pub from: Option<String>,
    pub to: Option<String>,
}

#[derive(Debug, Clone)]
pub struct Background {
    pub born: Option<String>,
    pub birthplace: Option<String>,
    pub occupations: Vec<String>,
    pub qualifications: Vec<String>,
    pub honours: Vec<String>,
    pub service_start: Option<String>,
    pub parliaments: Vec<i64>,
}

/// One contest a person stood in. `swing` is the results file's own
/// decimal text.
#[derive(Debug, Clone)]
pub struct ElectionContest {
    pub event: String,
    pub event_name: String,
    pub electorate_slug: String,
    pub electorate_name: String,
    pub party: String,
    pub votes: i64,
    pub pct: Share,
    pub swing: Option<String>,
    pub elected: bool,
}

#[derive(Debug, Clone)]
pub struct PersonIds {
    pub wikidata: Option<String>,
    pub tvfy: Option<i64>,
    pub aph: Option<String>,
    pub aec_candidate: Option<i64>,
}

#[derive(Debug, Clone)]
pub struct PersonLinks {
    pub wikipedia: Option<String>,
}

#[derive(Debug, Clone)]
pub struct AiText {
    pub text: String,
    pub model: String,
    pub generated_at: String,
}

#[derive(Debug, Clone, Copy, PartialEq, Eq, Structural)]
pub struct PersonStats {
    pub divisions_eligible: i64,
    pub divisions_voted: i64,
    pub against_group_majority: i64,
}

#[derive(Debug, Clone)]
pub struct Person {
    pub slug: String,
    pub name: String,
    pub house: House,
    pub state: Option<StateCode>,
    pub electorate: Option<String>,
    pub group: String,
    pub group_slug: String,
    pub since: Option<String>,
    pub ids: PersonIds,
    pub photo: Option<Photo>,
    pub links: PersonLinks,
    /// Machine-written descriptive note about the voting record. Never evaluative.
    pub ai_note: Option<AiText>,
    /// Career and biographical facts from the Parliamentary Handbook.
    pub background: Option<Background>,
    /// Dated ministry, shadow ministry and parliamentary positions (Handbook).
    pub positions: Option<Vec<PositionRecord>>,
    /// Contests this person stood in, from AEC results (House events).
    pub elections: Option<Vec<ElectionContest>>,
    pub stats: Option<PersonStats>,
}

#[derive(Debug, Clone, Copy, PartialEq, Eq, Structural)]
pub struct PartySeats {
    pub representatives: i64,
    pub senate: i64,
}

pub open spec fn seats_in(s: PartySeats, house: House) -> i64 {
    match house {
        House::Representatives => s.representatives,
        House::Senate => s.senate,
    }
}

impl PartySeats {
    pub fn get(&self, house: House) -> (r: i64)
        ensures
            r == seats_in(*self, house),
    {
        match house {
            House::Representatives => self.representatives,
            House::Senate => self.senate,
        }
    }

    pub fn get_mut(&mut self, house: House) -> (r: &mut i64)
        ensures
            *r == seats_in(*old(self), house),
            *final(self) == (match house {
                House::Representatives => PartySeats {
                    representatives: *final(r),
                    senate: old(self).senate,
                },
                House::Senate => PartySeats {
                    representatives: old(self).representatives,
                    senate: *final(r),
                },
            }),
    {
        match house {
            House::Representatives => &mut self.representatives,
            House::Senate => &mut self.senate,
        }
    }
}

/// What is written through `get_mut` for one house is what `get` reads back
/// for that house, and the other house's count is left as it was.
pub proof fn law_seats_write_then_read(before: PartySeats, after: PartySeats, house: House, v: i64)
    requires
        after == (match house {
            House::Representatives => PartySeats { representatives: v, senate: before.senate },
            House::Senate => PartySeats { representatives: before.representatives, senate: v },
        }),
    ensures
        seats_in(after, house) == v,
        forall|other: House| other != house ==> seats_in(after, other) == seats_in(before, other),
{
}

#[derive(Debug, Clone)]
pub struct PartyFacts {
    pub founded: Option<String>,
    pub website: Option<String>,
    pub wikipedia: Option<String>,
}

#[derive(Debug, Clone)]
pub struct Party {
    pub slug: String,
    pub name: String,
    pub code: Option<String>,
    pub colour: Option<String>,
    pub seats: Option<PartySeats>,
    pub facts: Option<PartyFacts>,
}

#[derive(Debug, Clone)]
pub struct ElectorateProfileFacts {
    pub name_derivation: Option<String>,
    pub location: Option<String>,
    pub area: Option<String>,
    pub gazetted: Option<String>,
    pub first_contested: Option<String>,
    pub demographic: Option<String>,
}

#[derive(Debug, Clone)]
pub struct Electorate {
    pub slug: String,
    pub name: String,
    pub state: StateCode,
    pub member_slug: Option<String>,
    /// Facts from the AEC's official electorate profile.
    pub profile: Option<ElectorateProfileFacts>,
    pub enrolment: Option<i64>,
}

#[derive(Debug, Clone, Copy, PartialEq, Eq, Structural)]
pub enum Vote {
    Aye,
    No,
}

#[derive(Debug, Clone)]
pub struct VoteCast {
    pub person_slug: String,
    pub vote: Vote,
    pub teller: Option<bool>,
    pub against_group_majority: Option<bool>,
}

#[derive(Debug, Clone, Copy, PartialEq, Eq, Structural)]
pub enum SummaryKind {
    Summary,
    Transcript,
}

#[derive(Debug, Clone, Copy, PartialEq, Eq, Structural)]
pub enum DivisionResult {
    Passed,
    Rejected,
}

#[derive(Debug, Clone)]
pub struct DivisionLinks {
    pub hansard: Option<String>,
    pub tvfy: Option<String>,
}

#[derive(Debug, Clone)]
pub struct Division {
    pub id: String,
    pub house: House,
    pub date: String,
    pub number: i64,
    pub name: String,
    /// Plain-English context written by They Vote For You volunteers.
    pub summary: Option<String>,
    /// Whether summary reads as written context or as a Hansard transcript excerpt.
    pub summary_kind: Option<SummaryKind>,
    /// Machine-written context, only generated when summary is a transcript.
    pub ai_summary: Option<AiText>,
    pub result: DivisionResult,
    pub ayes: i64,
    pub noes: i64,
    pub bill_ids: Vec<String>,
    pub links: DivisionLinks,
    pub votes: Vec<VoteCast>,
}

#[derive(Debug, Clone)]
pub struct TimelineStep {
    pub date: String,
    pub event: String,
}

#[derive(Debug, Clone)]
pub struct BillLinks {
    pub aph: Option<String>,
    pub text: Option<String>,
    pub em: Option<String>,
    pub parlinfo: Option<String>,
}

#[derive(Debug, Clone)]
pub struct BillRaiser {
    pub name: String,
    pub phid: Option<String>,
    pub slug: Option<String>,
}

#[derive(Debug, Clone)]
pub struct Bill {
    pub id: String,
    pub title: String,
    pub parliament: i64,
    pub chamber: House,
    pub bill_type: Option<String>,
    pub sponsor: Option<String>,
    pub portfolio: Option<String>,
    pub summary: Option<String>,
    /// Machine-written plain-English explanation of what the bill is about.
    pub ai_summary: Option<AiText>,
    pub status: String,
    pub timeline: Vec<TimelineStep>,
    pub links: BillLinks,
    /// List-response freshness marker driving incremental detail fetches.
    pub list_updated: Option<String>,
    /// Who raised the bill: sponsors for private bills, movers otherwise.
    pub sponsors: Vec<BillRaiser>,
    pub movers: Vec<BillRaiser>,
    pub division_ids: Vec<String>,
}

/// A share in percent. The library knows what a share is taken of; the
/// figure the site publishes is a floating-point rounding of it to two
/// places, made where results are written out. A figure read back from the
/// store is carried as the bits of that number, which the library does not
/// interpret.
#[derive(Debug, Clone, Copy, PartialEq, Eq, Structural)]
pub enum Share {
    /// `votes` out of `total` ballots (no share at all when `total` is 0).
    Of { votes: u64, total: u64 },
    /// A figure already published, as the bits of its IEEE-754 double.
    Published { bits: u64 },
    /// Taken of a total some count of which did not read as a number: NaN.
    NotANumber,
}

/// One candidate's result. `swing` is the results file's own decimal text.
#[derive(Debug, Clone)]
pub struct CandidateResult {
    pub name: String,
    pub party: String,
    pub party_code: Option<String>,
    pub votes: i64,
    pub pct: Share,
    pub swing: Option<String>,
    pub elected: bool,
}

#[derive(Debug, Clone)]
pub struct ElectorateResult {
    pub event_id: String,
    pub event_name: String,
    pub electorate_slug: String,
    pub electorate_name: String,
    pub state: StateCode,
    pub first_prefs: Vec<CandidateResult>,
    pub tcp: Vec<CandidateResult>,
}

#[derive(Debug, Clone)]
pub struct SourceStatus {
    pub last_sync: String,
    pub ok: bool,
    pub note: Option<String>,
}

#[derive(Debug, Clone)]
pub struct QuickSearchEntry {
    pub t: String,
    pub slug: String,
    pub name: String,
    pub sub: String,
}

pub const BUNDLE_PEOPLE: &'static str = "people.jsonl";

pub const BUNDLE_PARTIES: &'static str = "parties.jsonl";

pub const BUNDLE_ELECTORATES: &'static str = "electorates.jsonl";

pub const BUNDLE_DIVISIONS: &'static str = "divisions.jsonl";

pub const BUNDLE_BILLS: &'static str = "bills.jsonl";

pub const BUNDLE_ELECTIONS: &'static str = "elections.jsonl";

} // verus!
