//! Divisions and votes from They Vote For You: matching its people to ours,
//! normalising its division records, and the decisions of an incremental sync.

use crate::aph::{opt_view, vec_or_empty};
use crate::collections::{
    entries_get, entries_insert, id_entry_views, id_map_entries, id_map_get, id_map_insert,
    id_map_new, id_map_pairs, keys_distinct, law_insert_then_get,
};
use crate::js_url::{encode_uri_component, uri_component};
use crate::schema::{
    house_name, state_name, Division, DivisionLinks, DivisionResult, House, Person, Vote, VoteCast,
};
use crate::slug::{slugify, slugify_spec};
use crate::text::{
    concat2, concat3, decimal_int, int_text, lowercase_of, str_eq, to_lower, trim, trim_seq,
};
use indexmap::IndexMap;
use crate::text::string_views;
use vstd::prelude::*;

verus! {

#[derive(Debug, Clone)]
pub struct TvfyName {
    pub first: String,
    pub last: String,
}

#[derive(Debug, Clone)]
pub struct TvfyMemberSummary {
    pub name: TvfyName,
    pub electorate: String,
    pub house: House,
    pub party: String,
}

#[derive(Debug, Clone)]
pub struct TvfyPersonSummary {
    pub id: i64,
    pub latest_member: TvfyMemberSummary,
}

#[derive(Debug, Clone)]
pub struct TvfyDivisionSummary {
    pub id: i64,
    pub house: House,
    pub date: String,
    pub number: i64,
    pub name: String,
    pub aye_votes: i64,
    pub no_votes: i64,
}

#[derive(Debug, Clone)]
pub struct TvfyPersonRef {
    pub id: i64,
}

#[derive(Debug, Clone)]
pub struct TvfyVoteMember {
    pub person: TvfyPersonRef,
    pub first_name: String,
    pub last_name: String,
    pub party: String,
}

#[derive(Debug, Clone)]
pub struct TvfyVote {
    pub member: TvfyVoteMember,
    pub vote: Vote,
}

/// A bill's official id as the API sends it: a string, a number (kept as
/// the number's own decimal text), or anything else.
#[derive(Debug, Clone)]
pub enum OfficialId {
    Text(String),
    Number(String),
    Other,
}

#[derive(Debug, Clone)]
pub struct TvfyBillRef {
    pub id: i64,
    pub title: String,
    pub official_id: Option<OfficialId>,
}

#[derive(Debug, Clone)]
pub struct TvfyDivisionDetail {
    pub id: i64,
    pub house: House,
    pub date: String,
    pub number: i64,
    pub name: String,
    pub aye_votes: i64,
    pub no_votes: i64,
    pub summary: Option<String>,
    pub votes: Vec<TvfyVote>,
    pub bills: Option<Vec<TvfyBillRef>>,
}

// ---------------------------------------------------------------------------
// Senate seats and division keys
// ---------------------------------------------------------------------------

/// The state code for a lower-cased full state name.
pub open spec fn seat_state_code(lowered: Seq<char>) -> Option<Seq<char>> {
    if lowered == "new south wales"@ {
        Some("NSW"@)
    } else if lowered == "victoria"@ {
        Some("VIC"@)
    } else if lowered == "queensland"@ {
        Some("QLD"@)
    } else if lowered == "western australia"@ {
        Some("WA"@)
    } else if lowered == "south australia"@ {
        Some("SA"@)
    } else if lowered == "tasmania"@ {
        Some("TAS"@)
    } else if lowered == "australian capital territory"@ {
        Some("ACT"@)
    } else if lowered == "northern territory"@ {
        Some("NT"@)
    } else {
        None
    }
}

pub open spec fn opt_str(o: Option<&str>) -> Option<Seq<char>> {
    match o {
        Some(s) => Some(s@),
        None => None,
    }
}

/// TVFY reports a senator's "electorate" as the full state name, in any case.
pub fn state_code_for(seat: &str) -> (r: Option<&'static str>)
    ensures
        opt_str(r) == seat_state_code(lowercase_of(seat@)),
{
    let lowered = to_lower(seat);
    let l = lowered.as_str();
    if str_eq(l, "new south wales") {
        Some("NSW")
    } else if str_eq(l, "victoria") {
        Some("VIC")
    } else if str_eq(l, "queensland") {
        Some("QLD")
    } else if str_eq(l, "western australia") {
        Some("WA")
    } else if str_eq(l, "south australia") {
        Some("SA")
    } else if str_eq(l, "tasmania") {
        Some("TAS")
    } else if str_eq(l, "australian capital territory") {
        Some("ACT")
    } else if str_eq(l, "northern territory") {
        Some("NT")
    } else {
        None
    }
}

/// A division id with its slashes flattened, usable as a file name.
pub fn key_for(division_id: &str) -> (r: String)
    ensures
        r@ == crate::text::replace_char_seq(division_id@, '/', '-'),
{
    crate::text::replace_char(division_id, '/', '-')
}

// ---------------------------------------------------------------------------
// Matching TVFY people to canonical people
// ---------------------------------------------------------------------------

pub open spec fn tvfy_full_name(tp: TvfyPersonSummary) -> Seq<char> {
    tp.latest_member.name.first@ + " "@ + tp.latest_member.name.last@
}

/// A canonical person carries the name: by slug, or by the slug of their name.
pub open spec fn name_matches(p: Person, name_slug: Seq<char>) -> bool {
    p.slug@ == name_slug || slugify_spec(p.name@) == name_slug
}

/// Same chamber, and the same seat: the electorate's slug, or for a
/// senator the state named by the seat.
pub open spec fn seat_fits(p: Person, tp: TvfyPersonSummary) -> bool {
    let seat = tp.latest_member.electorate@;
    let code = seat_state_code(lowercase_of(seat));
    p.house == tp.latest_member.house && (opt_view(p.electorate) == Some(slugify_spec(seat)) || (
    code is Some && p.state is Some && code == Some(state_name(p.state.unwrap()))))
}

/// How many people carry the name.
pub open spec fn candidate_count(people: Seq<Person>, name_slug: Seq<char>) -> nat
    decreases people.len(),
{
    if people.len() == 0 {
        0
    } else {
        candidate_count(people.drop_last(), name_slug) + if name_matches(people.last(), name_slug) {
            1nat
        } else {
            0nat
        }
    }
}

/// The first person carrying the name (and, when `need_fit`, the seat), or -1.
pub open spec fn first_candidate(
    people: Seq<Person>,
    name_slug: Seq<char>,
    tp: TvfyPersonSummary,
    need_fit: bool,
) -> int
    decreases people.len(),
{
    if people.len() == 0 {
        -1
    } else {
        let r = first_candidate(people.drop_last(), name_slug, tp, need_fit);
        if r >= 0 {
            r
        } else if name_matches(people.last(), name_slug) && (!need_fit || seat_fits(
            people.last(),
            tp,
        )) {
            people.len() - 1
        } else {
            -1
        }
    }
}

pub proof fn lemma_first_candidate(
    people: Seq<Person>,
    name_slug: Seq<char>,
    tp: TvfyPersonSummary,
    need_fit: bool,
)
    ensures
        -1 <= first_candidate(people, name_slug, tp, need_fit) < people.len(),
        !need_fit && candidate_count(people, name_slug) > 0 ==> first_candidate(
            people,
            name_slug,
            tp,
            need_fit,
        ) >= 0,
    decreases people.len(),
{
    if people.len() > 0 {
        lemma_first_candidate(people.drop_last(), name_slug, tp, need_fit);
    }
}

/// Which canonical person a TVFY person is: the only one carrying the name,
/// or among several, the first in the same chamber and seat; -1 for none.
pub open spec fn matched_index(people: Seq<Person>, tp: TvfyPersonSummary) -> int {
    let name_slug = slugify_spec(tvfy_full_name(tp));
    if candidate_count(people, name_slug) == 1 {
        first_candidate(people, name_slug, tp, false)
    } else {
        first_candidate(people, name_slug, tp, true)
    }
}

/// The crosswalk from canonical slug to TVFY id, built in TVFY's order.
pub open spec fn crosswalk_entries(tvfy: Seq<TvfyPersonSummary>, people: Seq<Person>) -> Seq<
    (Seq<char>, i64),
>
    decreases tvfy.len(),
{
    if tvfy.len() == 0 {
        Seq::empty()
    } else {
        let prev = crosswalk_entries(tvfy.drop_last(), people);
        let tp = tvfy.last();
        let i = matched_index(people, tp);
        if 0 <= i < people.len() {
            entries_insert(prev, people[i].slug@, tp.id)
        } else {
            prev
        }
    }
}

fn matched_person(people: &[Person], tp: &TvfyPersonSummary) -> (r: Option<usize>)
    ensures
        match r {
            Some(i) => i == matched_index(people@, *tp) && i < people@.len(),
            None => matched_index(people@, *tp) < 0,
        },
{
    let name = concat3(
        tp.latest_member.name.first.as_str(),
        " ",
        tp.latest_member.name.last.as_str(),
    );
    let name_slug = slugify(name.as_str());
    let seat = tp.latest_member.electorate.as_str();
    let seat_state = state_code_for(seat);
    let seat_slug = slugify(seat);
    let ghost ns = name_slug@;
    let mut count: usize = 0;
    let mut first_any: Option<usize> = None;
    let mut first_fit: Option<usize> = None;
    let mut j: usize = 0;
    while j < people.len()
        invariant
            j <= people@.len(),
            ns == slugify_spec(tvfy_full_name(*tp)),
            name_slug@ == ns,
            seat_slug@ == slugify_spec(tp.latest_member.electorate@),
            opt_str(seat_state) == seat_state_code(lowercase_of(tp.latest_member.electorate@)),
            count == candidate_count(people@.take(j as int), ns),
            count <= j,
            match first_any {
                Some(i) => i == first_candidate(people@.take(j as int), ns, *tp, false) && i < j,
                None => first_candidate(people@.take(j as int), ns, *tp, false) == -1,
            },
            match first_fit {
                Some(i) => i == first_candidate(people@.take(j as int), ns, *tp, true) && i < j,
                None => first_candidate(people@.take(j as int), ns, *tp, true) == -1,
            },
        decreases people@.len() - j,
    {
        let p = &people[j];
        proof {
            assert(people@.take(j + 1).drop_last() =~= people@.take(j as int));
            assert(people@.take(j + 1).last() == people@[j as int]);
        }
        let by_slug = str_eq(p.slug.as_str(), name_slug.as_str());
        let named = if by_slug {
            true
        } else {
            let ps = slugify(p.name.as_str());
            str_eq(ps.as_str(), name_slug.as_str())
        };
        assert(named == name_matches(people@[j as int], ns));
        if named {
            count = count + 1;
            if first_any.is_none() {
                first_any = Some(j);
            }
            let same_house = match (p.house, tp.latest_member.house) {
                (House::Representatives, House::Representatives) => true,
                (House::Senate, House::Senate) => true,
                _ => false,
            };
            let same_electorate = match &p.electorate {
                Some(e) => str_eq(e.as_str(), seat_slug.as_str()),
                None => false,
            };
            let same_state = match (seat_state, p.state) {
                (Some(code), Some(st)) => str_eq(st.as_str(), code),
                _ => false,
            };
            if same_house && (same_electorate || same_state) && first_fit.is_none() {
                first_fit = Some(j);
            }
        }
        j = j + 1;
    }
    proof {
        assert(people@.take(people@.len() as int) =~= people@);
        lemma_first_candidate(people@, ns, *tp, false);
        lemma_first_candidate(people@, ns, *tp, true);
    }
    if count == 1 {
        first_any
    } else {
        first_fit
    }
}

/// Match TVFY people to canonical people by name, then by seat on ties. The
/// result maps each matched person's slug to their TVFY id; TVFY people
/// without a match are left out, never invented.
pub fn match_people(tvfy_people: &[TvfyPersonSummary], people: &[Person]) -> (r: IndexMap<
    String,
    i64,
>)
    ensures
        id_map_entries(r) == crosswalk_entries(tvfy_people@, people@),
        keys_distinct(id_map_entries(r)),
{
    let mut by_slug = id_map_new();
    let mut t: usize = 0;
    while t < tvfy_people.len()
        invariant
            t <= tvfy_people@.len(),
            id_map_entries(by_slug) == crosswalk_entries(tvfy_people@.take(t as int), people@),
            keys_distinct(id_map_entries(by_slug)),
        decreases tvfy_people@.len() - t,
    {
        let tp = &tvfy_people[t];
        proof {
            assert(tvfy_people@.take(t + 1).drop_last() =~= tvfy_people@.take(t as int));
            assert(tvfy_people@.take(t + 1).last() == tvfy_people@[t as int]);
        }
        match matched_person(people, tp) {
            Some(i) => {
                proof {
                    law_insert_then_get(id_map_entries(by_slug), people@[i as int].slug@, tp.id, Seq::empty());
                }
                id_map_insert(&mut by_slug, people[i].slug.clone(), tp.id);
            },
            None => {},
        }
        t = t + 1;
    }
    proof {
        assert(tvfy_people@.take(tvfy_people@.len() as int) =~= tvfy_people@);
    }
    by_slug
}


// ---------------------------------------------------------------------------
// Normalising a division
// ---------------------------------------------------------------------------

/// The slug the crosswalk gives a TVFY id: the last entry carrying it.
pub open spec fn slug_for_id(e: Seq<(Seq<char>, i64)>, id: i64) -> Option<Seq<char>>
    decreases e.len(),
{
    if e.len() == 0 {
        None
    } else if e.last().1 == id {
        Some(e.last().0)
    } else {
        slug_for_id(e.drop_last(), id)
    }
}

/// A voter's slug: from the crosswalk, else a slug of their name.
pub open spec fn voter_slug(e: Seq<(Seq<char>, i64)>, v: TvfyVote) -> Seq<char> {
    match slug_for_id(e, v.member.person.id) {
        Some(s) => s,
        None => slugify_spec(v.member.first_name@ + " "@ + v.member.last_name@),
    }
}

/// How many of a party's members cast `which`.
pub open spec fn party_votes(votes: Seq<TvfyVote>, party: Seq<char>, which: Vote) -> nat
    decreases votes.len(),
{
    if votes.len() == 0 {
        0
    } else {
        party_votes(votes.drop_last(), party, which) + if votes.last().member.party@ == party
            && votes.last().vote == which {
            1nat
        } else {
            0nat
        }
    }
}

/// Whether anyone of the party voted.
pub open spec fn party_seen(votes: Seq<TvfyVote>, party: Seq<char>) -> bool
    decreases votes.len(),
{
    votes.len() > 0 && (votes.last().member.party@ == party || party_seen(votes.drop_last(), party))
}

pub proof fn lemma_party_votes_bound(votes: Seq<TvfyVote>, party: Seq<char>, which: Vote)
    ensures
        party_votes(votes, party, which) <= votes.len(),
        !party_seen(votes, party) ==> party_votes(votes, party, which) == 0,
    decreases votes.len(),
{
    if votes.len() > 0 {
        lemma_party_votes_bound(votes.drop_last(), party, which);
    }
}

/// The way a party's members mostly voted; none on a tie.
pub open spec fn group_majority(votes: Seq<TvfyVote>, party: Seq<char>) -> Option<Vote> {
    let aye = party_votes(votes, party, Vote::Aye);
    let no = party_votes(votes, party, Vote::No);
    if aye == no {
        None
    } else if aye > no {
        Some(Vote::Aye)
    } else {
        Some(Vote::No)
    }
}

/// Marked only when the vote went against its party's majority.
pub open spec fn crossed(votes: Seq<TvfyVote>, v: TvfyVote) -> Option<bool> {
    match group_majority(votes, v.member.party@) {
        Some(m) => if v.vote != m {
            Some(true)
        } else {
            None
        },
        None => None,
    }
}

/// `{house}/{date}/{number}`.
pub open spec fn division_id(house: House, date: Seq<char>, number: i64) -> Seq<char> {
    house_name(house) + "/"@ + date + "/"@ + decimal_int(number as int)
}

/// A summary trimmed, and dropped when nothing is left.
pub open spec fn summary_text(o: Option<String>) -> Option<Seq<char>> {
    match o {
        Some(s) => if trim_seq(s@).len() == 0 {
            None
        } else {
            Some(trim_seq(s@))
        },
        None => None,
    }
}

/// Official ids win over TVFY's internal ids, whatever their JSON type.
pub open spec fn bill_id_text(b: TvfyBillRef) -> Seq<char> {
    match b.official_id {
        Some(OfficialId::Text(s)) => s@,
        Some(OfficialId::Number(t)) => t@,
        _ => decimal_int(b.id as int),
    }
}


pub open spec fn tvfy_division_link(id: Seq<char>) -> Seq<char> {
    "https://theyvoteforyou.org.au/divisions/"@ + id
}

/// The division record made from a TVFY detail.
pub open spec fn division_matches(detail: TvfyDivisionDetail, e: Seq<(Seq<char>, i64)>, d: Division) -> bool {
    let id = division_id(detail.house, detail.date@, detail.number);
    let bills = vec_or_empty(detail.bills);
    &&& d.id@ == id
    &&& d.house == detail.house
    &&& d.date@ == detail.date@
    &&& d.number == detail.number
    &&& d.name@ == detail.name@
    &&& opt_view(d.summary) == summary_text(detail.summary)
    &&& d.summary_kind is None
    &&& d.ai_summary is None
    &&& d.result == (if detail.aye_votes > detail.no_votes {
        DivisionResult::Passed
    } else {
        DivisionResult::Rejected
    })
    &&& d.ayes == detail.aye_votes
    &&& d.noes == detail.no_votes
    &&& string_views(d.bill_ids@) == bills.map_values(|b: TvfyBillRef| bill_id_text(b))
    &&& d.links.hansard is None
    &&& opt_view(d.links.tvfy) == Some(tvfy_division_link(id))
    &&& d.votes@.len() == detail.votes@.len()
    &&& forall|i: int|
        0 <= i < d.votes@.len() ==> {
            let v = detail.votes@[i];
            let c = #[trigger] d.votes@[i];
            &&& c.person_slug@ == voter_slug(e, v)
            &&& c.vote == v.vote
            &&& c.teller is None
            &&& c.against_group_majority == crossed(detail.votes@, v)
        }
}

/// A normalised division marks a vote as crossing exactly when the voter's
/// party did not split evenly and the vote went the other way from the
/// party's larger side; it never marks a vote as not crossing.
pub proof fn law_crossing_goes_against_the_larger_side(
    detail: TvfyDivisionDetail,
    e: Seq<(Seq<char>, i64)>,
    d: Division,
)
    requires
        division_matches(detail, e, d),
    ensures
        forall|i: int|
            0 <= i < d.votes@.len() ==> {
                let v = detail.votes@[i];
                let aye = party_votes(detail.votes@, v.member.party@, Vote::Aye);
                let no = party_votes(detail.votes@, v.member.party@, Vote::No);
                &&& (#[trigger] d.votes@[i]).against_group_majority != Some(false)
                &&& (d.votes@[i].against_group_majority == Some(true) <==> aye != no && v.vote != (
                if aye > no {
                    Vote::Aye
                } else {
                    Vote::No
                }))
            },
{
    assert forall|i: int| 0 <= i < d.votes@.len() implies {
        let v = detail.votes@[i];
        let aye = party_votes(detail.votes@, v.member.party@, Vote::Aye);
        let no = party_votes(detail.votes@, v.member.party@, Vote::No);
        &&& (#[trigger] d.votes@[i]).against_group_majority != Some(false)
        &&& (d.votes@[i].against_group_majority == Some(true) <==> aye != no && v.vote != (if aye
            > no {
            Vote::Aye
        } else {
            Vote::No
        }))
    } by {
        let v = detail.votes@[i];
        assert(d.votes@[i].against_group_majority == crossed(detail.votes@, v));
    }
}

fn slug_lookup(pairs: &Vec<(String, i64)>, id: i64) -> (r: Option<String>)
    ensures
        opt_view(r) == slug_for_id(id_entry_views(pairs@), id),
{
    let mut found: Option<String> = None;
    let mut k: usize = 0;
    while k < pairs.len()
        invariant
            k <= pairs@.len(),
            opt_view(found) == slug_for_id(id_entry_views(pairs@.take(k as int)), id),
        decreases pairs@.len() - k,
    {
        proof {
            assert(id_entry_views(pairs@.take(k + 1)).drop_last() =~= id_entry_views(
                pairs@.take(k as int),
            ));
        }
        if pairs[k].1 == id {
            found = Some(pairs[k].0.clone());
        }
        k = k + 1;
    }
    proof {
        assert(pairs@.take(pairs@.len() as int) =~= pairs@);
    }
    found
}

pub open spec fn tally_of(votes: Seq<TvfyVote>, party: Seq<char>, which: Vote) -> Option<i64> {
    if party_seen(votes, party) {
        Some(party_votes(votes, party, which) as i64)
    } else {
        None
    }
}

fn vote_is(v: Vote, which: Vote) -> (r: bool)
    ensures
        r == (v == which),
{
    match (v, which) {
        (Vote::Aye, Vote::Aye) => true,
        (Vote::No, Vote::No) => true,
        _ => false,
    }
}

/// Per-party counts of aye and no votes, in two maps keyed by party name.
fn group_tallies(votes: &Vec<TvfyVote>) -> (r: (IndexMap<String, i64>, IndexMap<String, i64>))
    requires
        votes@.len() <= i64::MAX,
    ensures
        forall|party: Seq<char>|
            entries_get(id_map_entries(r.0), party) == tally_of(votes@, party, Vote::Aye),
        forall|party: Seq<char>|
            entries_get(id_map_entries(r.1), party) == tally_of(votes@, party, Vote::No),
{
    let mut ayes = id_map_new();
    let mut noes = id_map_new();
    let mut i: usize = 0;
    while i < votes.len()
        invariant
            i <= votes@.len() <= i64::MAX,
            keys_distinct(id_map_entries(ayes)),
            keys_distinct(id_map_entries(noes)),
            forall|party: Seq<char>|
                entries_get(id_map_entries(ayes), party) == tally_of(
                    votes@.take(i as int),
                    party,
                    Vote::Aye,
                ),
            forall|party: Seq<char>|
                entries_get(id_map_entries(noes), party) == tally_of(
                    votes@.take(i as int),
                    party,
                    Vote::No,
                ),
        decreases votes@.len() - i,
    {
        let v = &votes[i];
        let ghost pre = votes@.take(i as int);
        let ghost post = votes@.take(i + 1);
        let ghost party = v.member.party@;
        proof {
            assert(post.drop_last() =~= pre);
            assert(post.last() == votes@[i as int]);
            lemma_party_votes_bound(pre, party, Vote::Aye);
            lemma_party_votes_bound(pre, party, Vote::No);
        }
        let a = match id_map_get(&ayes, v.member.party.as_str()) {
            Some(n) => n,
            None => 0,
        };
        let n = match id_map_get(&noes, v.member.party.as_str()) {
            Some(n) => n,
            None => 0,
        };
        let a2 = if vote_is(v.vote, Vote::Aye) {
            a + 1
        } else {
            a
        };
        let n2 = if vote_is(v.vote, Vote::No) {
            n + 1
        } else {
            n
        };
        proof {
            let ea = id_map_entries(ayes);
            let en = id_map_entries(noes);
            assert forall|k: Seq<char>|
                entries_get(entries_insert(ea, party, a2), k) == tally_of(post, k, Vote::Aye) by {
                law_insert_then_get(ea, party, a2, k);
            }
            assert forall|k: Seq<char>|
                entries_get(entries_insert(en, party, n2), k) == tally_of(post, k, Vote::No) by {
                law_insert_then_get(en, party, n2, k);
            }
            law_insert_then_get(ea, party, a2, party);
            law_insert_then_get(en, party, n2, party);
        }
        id_map_insert(&mut ayes, v.member.party.clone(), a2);
        id_map_insert(&mut noes, v.member.party.clone(), n2);
        i = i + 1;
    }
    proof {
        assert(votes@.take(votes@.len() as int) =~= votes@);
    }
    (ayes, noes)
}

/// The id `{house}/{date}/{number}` of a division.
fn division_id_text(house: House, date: &str, number: i64) -> (r: String)
    ensures
        r@ == division_id(house, date@, number),
{
    let head = concat3(house.as_str(), "/", date);
    let num = int_text(number);
    concat3(head.as_str(), "/", num.as_str())
}

fn bill_ids_of(bills: &Option<Vec<TvfyBillRef>>) -> (r: Vec<String>)
    ensures
        string_views(r@) == vec_or_empty(*bills).map_values(|b: TvfyBillRef| bill_id_text(b)),
{
    let mut out: Vec<String> = Vec::new();
    match bills {
        Some(list) => {
            let mut k: usize = 0;
            while k < list.len()
                invariant
                    k <= list@.len(),
                    string_views(out@) == list@.take(k as int).map_values(
                        |b: TvfyBillRef| bill_id_text(b),
                    ),
                decreases list@.len() - k,
            {
                let b = &list[k];
                let text = match &b.official_id {
                    Some(OfficialId::Text(s)) => s.clone(),
                    Some(OfficialId::Number(t)) => t.clone(),
                    _ => int_text(b.id),
                };
                assert(text@ == bill_id_text(list@[k as int]));
                let ghost before = out@;
                out.push(text);
                assert(string_views(out@) =~= string_views(before).push(text@));
                proof {
                    assert(list@.take(k + 1) =~= list@.take(k as int).push(list@[k as int]));
                    assert(string_views(out@) =~= list@.take(k + 1).map_values(
                        |b: TvfyBillRef| bill_id_text(b),
                    ));
                }
                k = k + 1;
            }
            proof {
                assert(list@.take(list@.len() as int) =~= list@);
            }
        },
        None => {
            proof {
                assert(string_views(out@) =~= Seq::<Seq<char>>::empty());
            }
        },
    }
    out
}

fn summary_of(o: &Option<String>) -> (r: Option<String>)
    ensures
        opt_view(r) == summary_text(*o),
{
    match o {
        Some(s) => {
            let t = trim(s.as_str());
            if t.as_str().unicode_len() == 0 {
                None
            } else {
                Some(t)
            }
        },
        None => None,
    }
}

/// Normalise a TVFY division detail: its id, result, trimmed summary, cited
/// bills, link, and each vote with the voter's slug and whether it went
/// against the voter's party majority.
pub fn to_division(detail: &TvfyDivisionDetail, crosswalk: &IndexMap<String, i64>) -> (d: Division)
    requires
        detail.votes@.len() <= i64::MAX,
    ensures
        division_matches(*detail, id_map_entries(*crosswalk), d),
{
    let pairs = id_map_pairs(crosswalk);
    let ghost e = id_map_entries(*crosswalk);
    let tallies = group_tallies(&detail.votes);
    let ayes = &tallies.0;
    let noes = &tallies.1;
    let mut votes: Vec<VoteCast> = Vec::new();
    let mut i: usize = 0;
    while i < detail.votes.len()
        invariant
            i <= detail.votes@.len() <= i64::MAX,
            votes@.len() == i,
            id_entry_views(pairs@) == e,
            forall|party: Seq<char>|
                entries_get(id_map_entries(*ayes), party) == tally_of(
                    detail.votes@,
                    party,
                    Vote::Aye,
                ),
            forall|party: Seq<char>|
                entries_get(id_map_entries(*noes), party) == tally_of(
                    detail.votes@,
                    party,
                    Vote::No,
                ),
            forall|j: int|
                0 <= j < i ==> {
                    let v = detail.votes@[j];
                    let c = #[trigger] votes@[j];
                    &&& c.person_slug@ == voter_slug(e, v)
                    &&& c.vote == v.vote
                    &&& c.teller is None
                    &&& c.against_group_majority == crossed(detail.votes@, v)
                },
        decreases detail.votes@.len() - i,
    {
        let v = &detail.votes[i];
        let slug = match slug_lookup(&pairs, v.member.person.id) {
            Some(s) => s,
            None => {
                let name = concat3(v.member.first_name.as_str(), " ", v.member.last_name.as_str());
                slugify(name.as_str())
            },
        };
        let ghost party = v.member.party@;
        proof {
            lemma_party_seen_member(detail.votes@, i as int);
        }
        let a = id_map_get(ayes, v.member.party.as_str());
        let n = id_map_get(noes, v.member.party.as_str());
        let majority: Option<Vote> = match (a, n) {
            (Some(a), Some(n)) => if a == n {
                None
            } else if a > n {
                Some(Vote::Aye)
            } else {
                Some(Vote::No)
            },
            _ => None,
        };
        let against = match majority {
            Some(m) => if vote_is(v.vote, m) {
                None
            } else {
                Some(true)
            },
            None => None,
        };
        proof {
            assert(slug@ == voter_slug(e, detail.votes@[i as int]));
            assert(against == crossed(detail.votes@, detail.votes@[i as int]));
        }
        votes.push(VoteCast { person_slug: slug, vote: v.vote, teller: None, against_group_majority: against });
        i = i + 1;
    }
    let id = division_id_text(detail.house, detail.date.as_str(), detail.number);
    let link = concat2("https://theyvoteforyou.org.au/divisions/", id.as_str());
    Division {
        id,
        house: detail.house,
        date: detail.date.clone(),
        number: detail.number,
        name: detail.name.clone(),
        summary: summary_of(&detail.summary),
        summary_kind: None,
        ai_summary: None,
        result: if detail.aye_votes > detail.no_votes {
            DivisionResult::Passed
        } else {
            DivisionResult::Rejected
        },
        ayes: detail.aye_votes,
        noes: detail.no_votes,
        bill_ids: bill_ids_of(&detail.bills),
        links: DivisionLinks { hansard: None, tvfy: Some(link) },
        votes,
    }
}

pub proof fn lemma_party_seen_member(votes: Seq<TvfyVote>, i: int)
    requires
        0 <= i < votes.len(),
    ensures
        party_seen(votes, votes[i].member.party@),
        party_votes(votes, votes[i].member.party@, Vote::Aye) <= votes.len(),
        party_votes(votes, votes[i].member.party@, Vote::No) <= votes.len(),
    decreases votes.len(),
{
    lemma_party_votes_bound(votes, votes[i].member.party@, Vote::Aye);
    lemma_party_votes_bound(votes, votes[i].member.party@, Vote::No);
    if i < votes.len() - 1 {
        lemma_party_seen_member(votes.drop_last(), i);
    }
}


// ---------------------------------------------------------------------------
// Date windows
// ---------------------------------------------------------------------------

#[verifier::external_type_specification]
#[verifier::external_body]
pub struct ExDateParseError(chrono::ParseError);

/// The `%Y-%m-%d` date `days` days before `iso`, as chrono reads, shifts and
/// writes it: `None` when chrono does not read `iso` as such a date,
/// `Some(None)` when the shifted date falls outside chrono's calendar. The
/// calendar takes pages to state, so the result is only named.
pub uninterp spec fn iso_date_shift(iso: Seq<char>, days: i64) -> Option<Option<Seq<char>>>;

/// `NaiveDate::parse_from_str(iso, "%Y-%m-%d")`, then `TimeDelta::try_days`
/// and `NaiveDate::checked_sub_signed`, then `format("%Y-%m-%d")`, from chrono.
#[verifier::external_body]
fn shift_iso_date(iso: &str, days: i64) -> (r: Result<Option<String>, chrono::ParseError>)
    ensures
        match r {
            Ok(o) => iso_date_shift(iso@, days) == Some(opt_view(o)),
            Err(_) => iso_date_shift(iso@, days) is None,
        },
{
    let date = match chrono::NaiveDate::parse_from_str(iso, "%Y-%m-%d") {
        Ok(d) => d,
        Err(e) => return Err(e),
    };
    let shifted = match chrono::TimeDelta::try_days(days) {
        Some(delta) => date.checked_sub_signed(delta),
        None => None,
    };
    match shifted {
        Some(d) => Ok(Some(d.format("%Y-%m-%d").to_string())),
        None => Ok(None),
    }
}

/// Why a date could not be moved.
#[derive(Debug, Clone, Copy, PartialEq, Eq, Structural)]
pub enum DateError {
    /// The text is not a `%Y-%m-%d` date.
    Unreadable,
    /// The shifted date is outside the calendar.
    OutOfRange,
}

/// What `iso_days_before` answers for a given date and distance.
pub open spec fn days_before_result(iso: Seq<char>, days: i64, r: Result<String, DateError>) -> bool {
    match r {
        Ok(s) => iso_date_shift(iso, days) == Some(Some(s@)),
        Err(DateError::Unreadable) => iso_date_shift(iso, days) is None,
        Err(DateError::OutOfRange) => iso_date_shift(iso, days) == Some(None::<Seq<char>>),
    }
}

/// The library's reading of what chrono answered.
pub fn date_outcome(raw: Result<Option<String>, chrono::ParseError>) -> (r: Result<String, DateError>)
    ensures
        match raw {
            Ok(Some(s)) => r == Ok::<String, DateError>(s),
            Ok(None) => r == Err::<String, DateError>(DateError::OutOfRange),
            Err(_) => r == Err::<String, DateError>(DateError::Unreadable),
        },
{
    match raw {
        Ok(Some(s)) => Ok(s),
        Ok(None) => Err(DateError::OutOfRange),
        Err(_) => Err(DateError::Unreadable),
    }
}

/// The `%Y-%m-%d` date `days` days before `iso`.
pub fn iso_days_before(iso: &str, days: i64) -> (r: Result<String, DateError>)
    ensures
        days_before_result(iso@, days, r),
{
    let raw = shift_iso_date(iso, days);
    date_outcome(raw)
}

/// Windows reach back this many days before the last division seen, so late
/// corrections to recent divisions are picked up.
pub const OVERLAP_DAYS: i64 = 14;

/// The opening of the 48th Parliament, where a first sync starts.
pub const FIRST_WINDOW_START: &'static str = "2025-07-01";

/// Where a sync's windows start: two weeks before the cursor, or at the
/// opening of the 48th Parliament when there is no cursor yet.
pub fn start_date(last: Option<&str>) -> (r: Result<String, DateError>)
    ensures
        match last {
            Some(d) => days_before_result(d@, OVERLAP_DAYS, r),
            None => r is Ok && r->Ok_0@ == FIRST_WINDOW_START@,
        },
{
    match last {
        Some(d) => iso_days_before(d, OVERLAP_DAYS),
        None => Ok(crate::text::owned(FIRST_WINDOW_START)),
    }
}

/// Position of the first summary with the id, or -1.
pub open spec fn summary_index(e: Seq<TvfyDivisionSummary>, id: i64) -> int
    decreases e.len(),
{
    if e.len() == 0 {
        -1
    } else {
        let r = summary_index(e.drop_last(), id);
        if r >= 0 {
            r
        } else if e.last().id == id {
            e.len() - 1
        } else {
            -1
        }
    }
}

pub proof fn lemma_summary_index(e: Seq<TvfyDivisionSummary>, id: i64)
    ensures
        -1 <= summary_index(e, id) < e.len(),
        summary_index(e, id) >= 0 ==> e[summary_index(e, id)].id == id,
        summary_index(e, id) < 0 ==> forall|j: int| 0 <= j < e.len() ==> (#[trigger] e[j]).id != id,
    decreases e.len(),
{
    if e.len() > 0 {
        lemma_summary_index(e.drop_last(), id);
        assert forall|j: int| 0 <= j < e.len() - 1 implies e[j] == e.drop_last()[j] by {}
    }
}

/// Keyed by division id: a summary already held is replaced where it
/// stands, a new one is added last.
pub open spec fn insert_summary(e: Seq<TvfyDivisionSummary>, s: TvfyDivisionSummary) -> Seq<TvfyDivisionSummary> {
    let i = summary_index(e, s.id);
    if i >= 0 {
        e.update(i, s)
    } else {
        e.push(s)
    }
}

pub open spec fn insert_all(e: Seq<TvfyDivisionSummary>, batch: Seq<TvfyDivisionSummary>) -> Seq<TvfyDivisionSummary>
    decreases batch.len(),
{
    if batch.len() == 0 {
        e
    } else {
        insert_summary(insert_all(e, batch.drop_last()), batch.last())
    }
}

/// Overlapping windows never hold a division twice: gathering pages keyed
/// by division id keeps the ids distinct and keeps every id seen.
pub proof fn law_windows_hold_each_division_once(e: Seq<TvfyDivisionSummary>, batch: Seq<TvfyDivisionSummary>)
    requires
        forall|a: int, b: int| 0 <= a < b < e.len() ==> (#[trigger] e[a]).id != (#[trigger] e[b]).id,
    ensures
        forall|a: int, b: int|
            0 <= a < b < insert_all(e, batch).len() ==> (#[trigger] insert_all(e, batch)[a]).id != (
            #[trigger] insert_all(e, batch)[b]).id,
        forall|j: int| 0 <= j < batch.len() ==> summary_index(insert_all(e, batch), (#[trigger] batch[j]).id) >= 0,
        forall|j: int| 0 <= j < e.len() ==> summary_index(insert_all(e, batch), (#[trigger] e[j]).id) >= 0,
    decreases batch.len(),
{
    if batch.len() > 0 {
        let rest = batch.drop_last();
        let s = batch.last();
        let prev = insert_all(e, rest);
        law_windows_hold_each_division_once(e, rest);
        lemma_summary_index(prev, s.id);
        let next = insert_all(e, batch);
        assert(next == insert_summary(prev, s));
        assert forall|id: i64| summary_index(prev, id) >= 0 implies summary_index(next, id) >= 0 by {
            lemma_summary_index(prev, id);
            lemma_summary_index(next, id);
            let k = summary_index(prev, id);
            if summary_index(next, id) < 0 {
                assert(next[k].id == id);
            }
        }
        lemma_summary_index(next, s.id);
        if summary_index(next, s.id) < 0 {
            let i = summary_index(prev, s.id);
            if i >= 0 {
                assert(next[i].id == s.id);
            } else {
                assert(next[prev.len() as int].id == s.id);
            }
        }
        assert forall|j: int| 0 <= j < batch.len() implies summary_index(next, (#[trigger] batch[j]).id) >= 0 by {
            if j < rest.len() {
                assert(rest[j] == batch[j]);
                assert(summary_index(prev, rest[j].id) >= 0);
            }
        }
        assert forall|j: int| 0 <= j < e.len() implies summary_index(next, (#[trigger] e[j]).id) >= 0 by {
            assert(summary_index(prev, e[j].id) >= 0);
        }
    } else {
        assert forall|j: int| 0 <= j < e.len() implies summary_index(insert_all(e, batch), (#[trigger] e[j]).id) >= 0 by {
            lemma_summary_index(e, e[j].id);
        }
    }
}

/// The least date of a non-empty batch.
pub open spec fn min_date(batch: Seq<TvfyDivisionSummary>) -> Seq<char>
    decreases batch.len(),
{
    if batch.len() <= 1 {
        batch[0].date@
    } else {
        let m = min_date(batch.drop_last());
        if crate::config::text_less(batch.last().date@, m) {
            batch.last().date@
        } else {
            m
        }
    }
}

/// The end date of the next, older window, if the walk goes on: it stops on
/// a short page (the index returns at most a page, newest first) or on a
/// page that brought nothing new.
pub open spec fn next_end_date(before_len: nat, batch: Seq<TvfyDivisionSummary>, after_len: nat) -> Option<Seq<char>> {
    if batch.len() < crate::aph::PAGE_SIZE || after_len == before_len {
        None
    } else {
        Some(min_date(batch))
    }
}

fn insert_summary_exec(by_id: &mut Vec<TvfyDivisionSummary>, s: TvfyDivisionSummary)
    ensures
        final(by_id)@ == insert_summary(old(by_id)@, s),
{
    let mut k: usize = 0;
    while k < by_id.len()
        invariant
            k <= by_id@.len(),
            by_id@ == old(by_id)@,
            summary_index(by_id@.take(k as int), s.id) == -1,
        decreases by_id@.len() - k,
    {
        proof {
            assert(by_id@.take(k + 1).drop_last() =~= by_id@.take(k as int));
        }
        if by_id[k].id == s.id {
            proof {
                assert(summary_index(by_id@.take(k + 1), s.id) == k);
                lemma_summary_prefix(by_id@, s.id, k + 1);
            }
            by_id.set(k, s);
            return;
        }
        k = k + 1;
    }
    proof {
        assert(by_id@.take(by_id@.len() as int) =~= by_id@);
    }
    by_id.push(s);
}

/// An index found in a prefix is the index in the whole.
proof fn lemma_summary_prefix(e: Seq<TvfyDivisionSummary>, id: i64, n: int)
    requires
        0 <= n <= e.len(),
        summary_index(e.take(n), id) >= 0,
    ensures
        summary_index(e, id) == summary_index(e.take(n), id),
    decreases e.len() - n,
{
    if n < e.len() {
        assert(e.take(n + 1).drop_last() =~= e.take(n));
        lemma_summary_prefix(e, id, n + 1);
    } else {
        assert(e.take(n) =~= e);
    }
}

/// Take one index page into the summaries gathered so far (deduplicated by
/// division id), and say where the next, older window ends, if there is one.
pub fn absorb_window(by_id: &mut Vec<TvfyDivisionSummary>, batch: Vec<TvfyDivisionSummary>) -> (next: Option<String>)
    ensures
        final(by_id)@ == insert_all(old(by_id)@, batch@),
        opt_view(next) == next_end_date(old(by_id)@.len(), batch@, final(by_id)@.len()),
{
    let before = by_id.len();
    let batch_len = batch.len();
    let mut least: Option<String> = None;
    let mut k: usize = 0;
    let ghost start = by_id@;
    while k < batch.len()
        invariant
            k <= batch@.len(),
            by_id@ == insert_all(start, batch@.take(k as int)),
            match least {
                Some(m) => k > 0 && m@ == min_date(batch@.take(k as int)),
                None => k == 0,
            },
        decreases batch@.len() - k,
    {
        let s = batch[k].clone_summary();
        proof {
            assert(batch@.take(k + 1).drop_last() =~= batch@.take(k as int));
        }
        least = match least {
            None => Some(s.date.clone()),
            Some(m) => if crate::config::str_less(s.date.as_str(), m.as_str()) {
                Some(s.date.clone())
            } else {
                Some(m)
            },
        };
        insert_summary_exec(by_id, s);
        k = k + 1;
    }
    proof {
        assert(batch@.take(batch@.len() as int) =~= batch@);
    }
    if batch_len < crate::aph::PAGE_SIZE || by_id.len() == before {
        None
    } else {
        least
    }
}

impl TvfyDivisionSummary {
    /// A field-for-field copy.
    pub fn clone_summary(&self) -> (r: Self)
        ensures
            r == *self,
    {
        TvfyDivisionSummary {
            id: self.id,
            house: self.house,
            date: self.date.clone(),
            number: self.number,
            name: self.name.clone(),
            aye_votes: self.aye_votes,
            no_votes: self.no_votes,
        }
    }
}


// ---------------------------------------------------------------------------
// The API client's rules
// ---------------------------------------------------------------------------

/// One `name=value` query pair: the value as `encodeURIComponent` writes
/// it, with encoded spaces as `+`.
pub open spec fn query_pair(name: Seq<char>, value: Seq<char>) -> Seq<char> {
    name + "="@ + crate::text::replace_seq(uri_component(value), "%20"@, "+"@)
}

/// The pairs joined with `&`.
pub open spec fn query_string(pairs: Seq<(Seq<char>, Seq<char>)>) -> Seq<char>
    decreases pairs.len(),
{
    if pairs.len() == 0 {
        Seq::empty()
    } else if pairs.len() == 1 {
        query_pair(pairs[0].0, pairs[0].1)
    } else {
        query_string(pairs.drop_last()) + "&"@ + query_pair(pairs.last().0, pairs.last().1)
    }
}

pub open spec fn pair_views(v: Seq<(String, String)>) -> Seq<(Seq<char>, Seq<char>)> {
    v.map_values(|p: (String, String)| (p.0@, p.1@))
}

/// `{base}/{path}.json?{params}&key={key}`.
pub open spec fn tvfy_url(base: Seq<char>, path: Seq<char>, params: Seq<(Seq<char>, Seq<char>)>, key: Seq<char>) -> Seq<char> {
    base + "/"@ + path + ".json?"@ + query_string(params.push(("key"@, key)))
}

/// What the client tracks over a run: the key, how many requests it made
/// against its cap, and whether the identifying user agent was refused.
#[derive(Debug)]
pub struct TvfyClient {
    pub key: String,
    pub requests: u32,
    pub cap: u32,
    pub ua_blocked: bool,
    pub base: String,
}

/// A request to make: where, and with the browser user agent or not.
#[derive(Debug)]
pub struct TvfyRequest {
    pub url: String,
    pub browser: bool,
}

/// The run has used its request budget.
#[derive(Debug, Clone, Copy, PartialEq, Eq, Structural)]
pub struct CapReached {
    pub cap: u32,
}

impl CapReached {
    pub fn message(&self) -> (r: String)
        ensures
            r@ == "TVFY request cap ("@ + decimal_int(self.cap as int) + ") reached"@,
    {
        let n = int_text(self.cap as i64);
        concat3("TVFY request cap (", n.as_str(), ") reached")
    }
}

/// What to do once a response came back.
#[derive(Debug, Clone, Copy, PartialEq, Eq, Structural)]
pub enum TvfyAfter {
    /// The response is the answer.
    Accept,
    /// The identifying user agent was refused: ask again as a browser.
    RetryAsBrowser,
    /// The failure is the answer.
    Fail,
}

/// Per-run request budget, unless the environment names another.
pub const DEFAULT_REQUEST_CAP: u32 = 500;

/// The decimal value of a digit string.
pub open spec fn digits_value(s: Seq<char>) -> int
    decreases s.len(),
{
    if s.len() == 0 {
        0
    } else {
        digits_value(s.drop_last()) * 10 + (s.last() as int - 48)
    }
}

/// What `str::parse::<u32>` accepts: an optional `+`, then one or more
/// ASCII digits whose value fits.
pub open spec fn unsigned_body(s: Seq<char>) -> Seq<char> {
    if s.len() > 0 && s[0] == '+' {
        s.drop_first()
    } else {
        s
    }
}

pub open spec fn parsed_u32(s: Seq<char>) -> Option<u32> {
    let body = unsigned_body(s);
    if body.len() > 0 && crate::aph::all_digits(body) && digits_value(body) <= u32::MAX {
        Some(digits_value(body) as u32)
    } else {
        None
    }
}

pub(crate) proof fn lemma_digits_value_nonneg(s: Seq<char>)
    requires
        forall|i: int| 0 <= i < s.len() ==> crate::text::is_ascii_digit(#[trigger] s[i]),
    ensures
        digits_value(s) >= 0,
        s.len() > 0 ==> digits_value(s) >= digits_value(s.drop_last()),
    decreases s.len(),
{
    if s.len() > 0 {
        assert forall|i: int| 0 <= i < s.len() - 1 implies crate::text::is_ascii_digit(#[trigger] s.drop_last()[i]) by {
            assert(s.drop_last()[i] == s[i]);
        }
        lemma_digits_value_nonneg(s.drop_last());
    }
}

pub(crate) fn parse_u32(text: &str) -> (r: Option<u32>)
    ensures
        r == parsed_u32(text@),
{
    let v = crate::text::chars_of(text);
    let start: usize = if v.len() > 0 && v[0] == '+' {
        1
    } else {
        0
    };
    let ghost body = v@.skip(start as int);
    proof {
        if start == 1 {
            assert(body =~= v@.drop_first());
        } else {
            assert(body =~= v@);
        }
    }
    if start >= v.len() {
        return None;
    }
    let mut acc: u64 = 0;
    let mut i: usize = start;
    while i < v.len()
        invariant
            start <= i <= v@.len(),
            start < v@.len(),
            v@ == text@,
            body == v@.skip(start as int),
            body == unsigned_body(text@),
            forall|k: int| 0 <= k < i - start ==> crate::text::is_ascii_digit(#[trigger] body[k]),
            acc == digits_value(body.take(i - start)),
            acc <= u32::MAX,
        decreases v@.len() - i,
    {
        let c = v[i];
        let ghost n = (i - start) as int;
        proof {
            assert(body.take(n + 1).drop_last() =~= body.take(n));
            assert(body[n] == c);
            assert(body.take(n + 1).last() == c);
        }
        if !('0' <= c && c <= '9') {
            proof {
                assert(!crate::text::is_ascii_digit(body[n]));
            }
            return None;
        }
        let d: u64 = (c as u32 - 48) as u64;
        let next: u64 = acc * 10 + d;
        assert(next == digits_value(body.take(n + 1)));
        if next > 4294967295 {
            proof {
                if crate::aph::all_digits(body) {
                    lemma_prefix_value_le(body, n + 1);
                }
            }
            return None;
        }
        acc = next;
        i = i + 1;
    }
    proof {
        assert(body.take(body.len() as int) =~= body);
    }
    Some(acc as u32)
}

/// The value of a digit string is at least that of any of its prefixes.
pub(crate) proof fn lemma_prefix_value_le(s: Seq<char>, n: int)
    requires
        0 <= n <= s.len(),
        forall|i: int| 0 <= i < s.len() ==> crate::text::is_ascii_digit(#[trigger] s[i]),
    ensures
        digits_value(s) >= digits_value(s.take(n)),
    decreases s.len() - n,
{
    if n < s.len() {
        lemma_prefix_value_le(s, n + 1);
        assert(s.take(n + 1).drop_last() =~= s.take(n));
        assert forall|i: int| 0 <= i < n + 1 implies crate::text::is_ascii_digit(#[trigger] s.take(n + 1)[i]) by {
            assert(s.take(n + 1)[i] == s[i]);
        }
        lemma_digits_value_nonneg(s.take(n + 1));
    } else {
        assert(s.take(n) =~= s);
    }
}

/// The request cap: the environment's value when it reads as a `u32`,
/// else the default.
pub fn request_cap(env_value: Option<&str>) -> (r: u32)
    ensures
        r == match opt_str(env_value) {
            Some(t) => match parsed_u32(t) {
                Some(n) => n,
                None => DEFAULT_REQUEST_CAP,
            },
            None => DEFAULT_REQUEST_CAP,
        },
{
    match env_value {
        Some(t) => match parse_u32(t) {
            Some(n) => n,
            None => DEFAULT_REQUEST_CAP,
        },
        None => DEFAULT_REQUEST_CAP,
    }
}

fn push_pair(out: &mut Vec<char>, first: bool, name: &str, value: &str)
    ensures
        final(out)@ == if first {
            old(out)@ + query_pair(name@, value@)
        } else {
            old(out)@ + "&"@ + query_pair(name@, value@)
        },
{
    let encoded = encode_uri_component(value);
    let spaced = crate::text::replace_all(encoded.as_str(), "%20", "+");
    let pair = concat3(name, "=", spaced.as_str());
    let ghost before = out@;
    if !first {
        out.push('&');
    }
    let mut pc = crate::text::chars_of(pair.as_str());
    out.append(&mut pc);
    proof {
        if first {
            assert(out@ =~= before + query_pair(name@, value@));
        } else {
            reveal_strlit("&");
            assert(out@ =~= before + "&"@ + query_pair(name@, value@));
        }
    }
}

fn query_of(params: &Vec<(String, String)>, key: &str) -> (r: String)
    ensures
        r@ == query_string(pair_views(params@).push(("key"@, key@))),
{
    let mut out: Vec<char> = Vec::new();
    let ghost all = pair_views(params@);
    let mut i: usize = 0;
    while i < params.len()
        invariant
            i <= params@.len(),
            all == pair_views(params@),
            out@ == query_string(all.take(i as int)),
        decreases params@.len() - i,
    {
        proof {
            assert(all.take(i + 1).drop_last() =~= all.take(i as int));
            assert(all.take(i + 1).last() == (params@[i as int].0@, params@[i as int].1@));
            if i == 0 {
                assert(all.take(0) =~= Seq::<(Seq<char>, Seq<char>)>::empty());
            }
        }
        push_pair(&mut out, i == 0, params[i].0.as_str(), params[i].1.as_str());
        i = i + 1;
    }
    let ghost whole = all.push(("key"@, key@));
    proof {
        assert(all.take(all.len() as int) =~= all);
        assert(whole.drop_last() =~= all);
        if all.len() == 0 {
            assert(all =~= Seq::<(Seq<char>, Seq<char>)>::empty());
        }
    }
    push_pair(&mut out, params.len() == 0, "key", key);
    crate::text::string_of(&out)
}

impl TvfyClient {
    pub fn new(key: String, cap: u32, base: String) -> (r: Self)
        ensures
            r.key == key,
            r.cap == cap,
            r.base == base,
            r.requests == 0,
            !r.ua_blocked,
    {
        TvfyClient { key, requests: 0, cap, base, ua_blocked: false }
    }

    /// Count a request against the cap and say where it goes and how: a
    /// request past the cap is refused; once the identifying user agent was
    /// refused, every request goes out as a browser.
    pub fn begin(&mut self, path: &str, params: &Vec<(String, String)>) -> (r: Result<TvfyRequest, CapReached>)
        requires
            old(self).requests < u32::MAX,
        ensures
            final(self).requests == old(self).requests + 1,
            final(self).key == old(self).key,
            final(self).cap == old(self).cap,
            final(self).base == old(self).base,
            final(self).ua_blocked == old(self).ua_blocked,
            r is Err <==> final(self).requests > old(self).cap,
            match r {
                Ok(req) => req.url@ == tvfy_url(old(self).base@, path@, pair_views(params@), old(self).key@)
                    && req.browser == old(self).ua_blocked,
                Err(e) => e.cap == old(self).cap,
            },
    {
        self.requests = self.requests + 1;
        if self.requests > self.cap {
            return Err(CapReached { cap: self.cap });
        }
        let qs = query_of(params, self.key.as_str());
        let head = concat3(self.base.as_str(), "/", path);
        let url = concat3(head.as_str(), ".json?", qs.as_str());
        Ok(TvfyRequest { url, browser: self.ua_blocked })
    }

    /// Decide on a response: a refusal (403) of the identifying user agent is
    /// asked again as a browser, and a browser answer that succeeds keeps the
    /// browser user agent for the rest of the run.
    pub fn settle(&mut self, browser: bool, ok: bool, failure: &str) -> (r: TvfyAfter)
        ensures
            final(self).key == old(self).key,
            final(self).requests == old(self).requests,
            final(self).cap == old(self).cap,
            final(self).base == old(self).base,
            final(self).ua_blocked == (old(self).ua_blocked || (browser && ok)),
            r == (if ok {
                TvfyAfter::Accept
            } else if !browser && crate::text::contains_seq(failure@, " 403"@) {
                TvfyAfter::RetryAsBrowser
            } else {
                TvfyAfter::Fail
            }),
    {
        if ok {
            if browser {
                self.ua_blocked = true;
            }
            TvfyAfter::Accept
        } else if !browser && crate::text::contains(failure, " 403") {
            TvfyAfter::RetryAsBrowser
        } else {
            TvfyAfter::Fail
        }
    }
}

// ---------------------------------------------------------------------------
// What a sync stores
// ---------------------------------------------------------------------------

/// The id a summary's division will carry.
pub fn summary_division_id(s: &TvfyDivisionSummary) -> (r: String)
    ensures
        r@ == division_id(s.house, s.date@, s.number),
{
    division_id_text(s.house, s.date.as_str(), s.number)
}

/// `canonical/divisions/{key}.json` for a division id.
pub fn canonical_division_key(division_id: &str) -> (r: String)
    ensures
        r@ == "canonical/divisions/"@ + crate::text::replace_char_seq(division_id@, '/', '-') + ".json"@,
{
    let k = key_for(division_id);
    concat3("canonical/divisions/", k.as_str(), ".json")
}

/// A division already stored with the same tallies is not fetched again.
pub fn is_unchanged(existing: Option<&Division>, summary: &TvfyDivisionSummary) -> (r: bool)
    ensures
        r == match existing {
            Some(d) => d.ayes == summary.aye_votes && d.noes == summary.no_votes,
            None => false,
        },
{
    match existing {
        Some(d) => d.ayes == summary.aye_votes && d.noes == summary.no_votes,
        None => false,
    }
}

/// The later of the cursor's date and a division's date.
pub fn later_date(latest: String, date: &str) -> (r: String)
    ensures
        r@ == if crate::config::text_less(latest@, date@) {
            date@
        } else {
            latest@
        },
{
    if crate::config::str_less(latest.as_str(), date) {
        crate::text::owned(date)
    } else {
        latest
    }
}

/// Write the crosswalk's TVFY ids onto the people, and give the positions of
/// those whose id changed (each to be stored again), in order.
pub fn apply_tvfy_ids(people: &mut Vec<Person>, crosswalk: &IndexMap<String, i64>) -> (changed: Vec<usize>)
    ensures
        final(people)@.len() == old(people)@.len(),
        forall|i: int|
            0 <= i < old(people)@.len() ==> {
                let before = old(people)@[i];
                let after = #[trigger] final(people)@[i];
                &&& after.ids.tvfy == match entries_get(id_map_entries(*crosswalk), before.slug@) {
                    Some(id) => Some(id),
                    None => before.ids.tvfy,
                }
                &&& after == (Person { ids: crate::schema::PersonIds { tvfy: after.ids.tvfy, ..before.ids }, ..before })
            },
        forall|k: int, l: int| 0 <= k < l < changed@.len() ==> changed@[k] < changed@[l],
        forall|i: int|
            0 <= i < old(people)@.len() ==> (changed@.contains(i as usize) <==> match entries_get(
                id_map_entries(*crosswalk),
                (#[trigger] old(people)@[i]).slug@,
            ) {
                Some(id) => old(people)@[i].ids.tvfy != Some(id),
                None => false,
            }),
{
    let mut changed: Vec<usize> = Vec::new();
    let mut i: usize = 0;
    let ghost e = id_map_entries(*crosswalk);
    while i < people.len()
        invariant
            i <= people@.len(),
            people@.len() == old(people)@.len(),
            e == id_map_entries(*crosswalk),
            forall|j: int| i <= j < people@.len() ==> people@[j] == old(people)@[j],
            forall|j: int|
                0 <= j < i ==> {
                    let before = old(people)@[j];
                    let after = #[trigger] people@[j];
                    &&& after.ids.tvfy == match entries_get(e, before.slug@) {
                        Some(id) => Some(id),
                        None => before.ids.tvfy,
                    }
                    &&& after == (Person { ids: crate::schema::PersonIds { tvfy: after.ids.tvfy, ..before.ids }, ..before })
                },
            forall|k: int, l: int| 0 <= k < l < changed@.len() ==> changed@[k] < changed@[l],
            forall|k: int| 0 <= k < changed@.len() ==> changed@[k] < i,
            forall|j: int|
                0 <= j < i ==> (changed@.contains(j as usize) <==> match entries_get(
                    e,
                    (#[trigger] old(people)@[j]).slug@,
                ) {
                    Some(id) => old(people)@[j].ids.tvfy != Some(id),
                    None => false,
                }),
        decreases people@.len() - i,
    {
        let found = id_map_get(crosswalk, people[i].slug.as_str());
        match found {
            Some(id) => {
                let same = match people[i].ids.tvfy {
                    Some(t) => t == id,
                    None => false,
                };
                if !same {
                    let mut p = people.remove(i);
                    p.ids.tvfy = Some(id);
                    people.insert(i, p);
                    let ghost before_changed = changed@;
                    changed.push(i);
                    proof {
                        assert forall|j: int| 0 <= j < i implies (#[trigger] changed@.contains(j as usize) <==> before_changed.contains(j as usize)) by {
                            if changed@.contains(j as usize) {
                                let k = choose|k: int| 0 <= k < changed@.len() && changed@[k] == j as usize;
                                if k == before_changed.len() {
                                } else {
                                    assert(before_changed[k] == j as usize);
                                }
                            }
                            if before_changed.contains(j as usize) {
                                let k = choose|k: int| 0 <= k < before_changed.len() && before_changed[k] == j as usize;
                                assert(changed@[k] == j as usize);
                            }
                        }
                        assert(changed@[changed@.len() - 1] == i);
                    }
                } else {
                    proof {
                        assert(!changed@.contains(i));
                    }
                }
            },
            None => {
                proof {
                    assert(!changed@.contains(i));
                }
            },
        }
        i = i + 1;
    }
    changed
}

} // verus!
