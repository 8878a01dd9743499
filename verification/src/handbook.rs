//! Career, biographical and position data from the Parliamentary Handbook:
//! matching its individuals to our people, shaping role records into
//! positions and individuals into backgrounds, and when to refresh.

use crate::aph::opt_view;
use crate::collections::{
    entries_get, id_map_entries, id_map_insert, id_map_new, keys_distinct, law_insert_then_get,
};
use crate::js_url::{encode_uri_component, uri_component};
use crate::schema::{state_name, Background, Person, PositionKind, PositionRecord};
use crate::slug::{slugify, slugify_spec};
use crate::sorting::{is_permutation, ordered_desc, sorted_by};
use crate::text::{
    chars_of, concat2, concat3, decimal_int, has_prefix, has_suffix, owned, replace_char_seq,
    replace_seq, str_eq, string_of, sub_chars, to_upper, trim, trim_seq, uppercase_of,
};
use crate::wikidata::first_ten;
use indexmap::IndexMap;
use crate::text::{string_views, opt_str_view};
use vstd::prelude::*;

verus! {

/// One parliamentarian in the Handbook's listing.
#[derive(Debug, Clone)]
pub struct HandbookIndividual {
    pub phid: Option<String>,
    pub given_name: Option<String>,
    pub preferred_name: Option<String>,
    pub family_name: Option<String>,
    pub date_of_birth: Option<String>,
    pub place_of_birth: Option<String>,
    pub state_of_birth: Option<String>,
    pub country_of_birth: Option<String>,
    pub electorate: Option<String>,
    pub state_abbrev: Option<String>,
    pub occupations: Option<Vec<String>>,
    pub qualifications: Option<Vec<String>>,
    pub honours: Option<Vec<String>>,
    pub parliamentary_positions: Option<Vec<String>>,
    pub represented_parliaments: Option<Vec<i64>>,
    pub service_history_start: Option<String>,
}

/// One dated ministry or shadow-ministry record.
#[derive(Debug, Clone)]
pub struct RoleRecord {
    pub role: Option<String>,
    pub prep: Option<String>,
    pub entity: Option<String>,
    pub ministry: Option<String>,
    pub r_date_start: Option<String>,
    pub r_date_end: Option<String>,
}

/// What is stored per person from the Handbook.
#[derive(Debug, Clone)]
pub struct HandbookProfile {
    pub phid: String,
    pub stored_at: String,
    pub background: Background,
    pub positions: Vec<PositionRecord>,
}

/// The API writes this date for "still serving".
pub const OPEN_END: &'static str = "1900-01-01";

/// Handbook data moves slowly; per-person detail refreshes weekly.
pub const REFRESH_MILLIS: i64 = 604800000;

/// The API caps `$top` at this many rows.
pub const ODATA_PAGE: usize = 100;

// ---------------------------------------------------------------------------
// Positions
// ---------------------------------------------------------------------------

/// A date as the Handbook gives it: absent when missing, empty or the
/// open-end sentinel, else its first ten characters.
pub open spec fn clean_date_spec(iso: Option<Seq<char>>) -> Option<Seq<char>> {
    match iso {
        Some(s) => if s.len() == 0 || has_prefix(s, OPEN_END@) {
            None
        } else {
            Some(first_ten(s))
        },
        None => None,
    }
}

pub fn clean_date(iso: Option<&str>) -> (r: Option<String>)
    ensures
        opt_view(r) == clean_date_spec(opt_str_view(iso)),
{
    let iso = match iso {
        Some(s) => s,
        None => return None,
    };
    if iso.unicode_len() == 0 || crate::text::starts_with(iso, OPEN_END) {
        return None;
    }
    let v = chars_of(iso);
    if v.len() <= 10 {
        Some(string_of(&v))
    } else {
        Some(string_of(&sub_chars(&v, 0, 10)))
    }
}

/// The parts of a role that are present and not empty.
pub open spec fn role_parts(r: RoleRecord) -> Seq<Seq<char>> {
    let parts = seq![r.role, r.prep, r.entity];
    present_parts(parts)
}

pub open spec fn present_parts(parts: Seq<Option<String>>) -> Seq<Seq<char>>
    decreases parts.len(),
{
    if parts.len() == 0 {
        Seq::empty()
    } else {
        let prev = present_parts(parts.drop_last());
        match parts.last() {
            Some(s) => if s@.len() > 0 {
                prev.push(s@)
            } else {
                prev
            },
            None => prev,
        }
    }
}

/// Pieces joined with single spaces.
pub open spec fn join_spaces(parts: Seq<Seq<char>>) -> Seq<char>
    decreases parts.len(),
{
    if parts.len() == 0 {
        Seq::empty()
    } else if parts.len() == 1 {
        parts[0]
    } else {
        join_spaces(parts.drop_last()) + " "@ + parts.last()
    }
}

pub open spec fn nonempty(o: Option<String>) -> Option<Seq<char>> {
    match o {
        Some(s) => if s@.len() > 0 {
            Some(s@)
        } else {
            None
        },
        None => None,
    }
}

/// The position a role record reads as.
pub open spec fn position_of(r: RoleRecord, kind: PositionKind, p: PositionRecord) -> bool {
    &&& p.role@ == trim_seq(join_spaces(role_parts(r)))
    &&& opt_view(p.ministry) == nonempty(r.ministry)
    &&& p.kind == kind
    &&& opt_view(p.from) == clean_date_spec(opt_view(r.r_date_start))
    &&& opt_view(p.to) == clean_date_spec(opt_view(r.r_date_end))
}

fn opt_as_str(o: &Option<String>) -> (r: Option<&str>)
    ensures
        opt_str_view(r) == opt_view(*o),
{
    match o {
        Some(s) => Some(s.as_str()),
        None => None,
    }
}

fn nonempty_exec(o: &Option<String>) -> (r: Option<String>)
    ensures
        opt_view(r) == nonempty(*o),
{
    match o {
        Some(s) => if s.as_str().unicode_len() > 0 {
            Some(s.clone())
        } else {
            None
        },
        None => None,
    }
}

/// Join a role's parts ("Minister", "for", "Finance") into its title, with
/// its ministry and its dates.
pub fn to_position(r: &RoleRecord, kind: PositionKind) -> (p: PositionRecord)
    ensures
        position_of(*r, kind, p),
{
    let ghost parts = seq![r.role, r.prep, r.entity];
    let mut out: Vec<char> = Vec::new();
    let mut n: usize = 0;
    proof {
        assert(parts.take(0) =~= Seq::<Option<String>>::empty());
    }
    let mut k: usize = 0;
    while k < 3
        invariant
            k <= 3,
            parts == seq![r.role, r.prep, r.entity],
            n == present_parts(parts.take(k as int)).len(),
            n <= k,
            out@ == join_spaces(present_parts(parts.take(k as int))),
        decreases 3 - k,
    {
        let part = if k == 0 {
            &r.role
        } else if k == 1 {
            &r.prep
        } else {
            &r.entity
        };
        proof {
            assert(parts.take(k + 1).drop_last() =~= parts.take(k as int));
            assert(parts.take(k + 1).last() == *part);
        }
        match part {
            Some(s) => {
                if s.as_str().unicode_len() > 0 {
                    let ghost before = out@;
                    let ghost prev = present_parts(parts.take(k as int));
                    if n > 0 {
                        out.push(' ');
                    }
                    let mut sc = chars_of(s.as_str());
                    out.append(&mut sc);
                    proof {
                        let now = prev.push(s@);
                        if n == 0 {
                            assert(now.len() == 1);
                            assert(out@ =~= join_spaces(now));
                        } else {
                            reveal_strlit(" ");
                            assert(now.drop_last() =~= prev);
                            assert(out@ =~= join_spaces(now));
                        }
                    }
                    n = n + 1;
                }
            },
            None => {},
        }
        k = k + 1;
    }
    proof {
        assert(parts.take(3) =~= parts);
    }
    let joined = string_of(&out);
    let role = trim(joined.as_str());
    PositionRecord {
        role,
        ministry: nonempty_exec(&r.ministry),
        kind,
        from: clean_date(opt_as_str(&r.r_date_start)),
        to: clean_date(opt_as_str(&r.r_date_end)),
    }
}

/// A parliamentary position is a bare role.
pub open spec fn plain_position(role: Seq<char>, p: PositionRecord) -> bool {
    &&& p.role@ == role
    &&& p.ministry is None
    &&& p.kind == PositionKind::Position
    &&& p.from is None
    &&& p.to is None
}

pub open spec fn vec_or_empty<T>(o: Option<Vec<T>>) -> Seq<T> {
    match o {
        Some(v) => v@,
        None => Seq::empty(),
    }
}

/// Entry `k` of a person's positions before sorting: the ministries, then the
/// shadow ministries, then the parliamentary positions.
pub open spec fn position_entry(
    ind: HandbookIndividual,
    ministries: Seq<RoleRecord>,
    shadows: Seq<RoleRecord>,
    k: int,
    p: PositionRecord,
) -> bool {
    if k < ministries.len() {
        position_of(ministries[k], PositionKind::Ministry, p)
    } else if k < ministries.len() + shadows.len() {
        position_of(shadows[k - ministries.len()], PositionKind::Shadow, p)
    } else {
        plain_position(vec_or_empty(ind.parliamentary_positions)[k - ministries.len() - shadows.len()]@, p)
    }
}

/// Where an entry sorts: its start date, or the empty text.
pub open spec fn from_key(
    ind: HandbookIndividual,
    ministries: Seq<RoleRecord>,
    shadows: Seq<RoleRecord>,
    k: int,
) -> Seq<char> {
    if k < ministries.len() {
        crate::wikidata::or_empty_view(clean_date_spec(opt_view(ministries[k].r_date_start)))
    } else if k < ministries.len() + shadows.len() {
        crate::wikidata::or_empty_view(
            clean_date_spec(opt_view(shadows[k - ministries.len()].r_date_start)),
        )
    } else {
        Seq::empty()
    }
}

pub open spec fn position_count(ind: HandbookIndividual, ministries: Seq<RoleRecord>, shadows: Seq<RoleRecord>) -> nat {
    ministries.len() + shadows.len() + vec_or_empty(ind.parliamentary_positions).len()
}

/// A person's positions: every ministry, shadow ministry and parliamentary
/// position, newest start first; those starting together keep their order.
pub open spec fn positions_of(
    ind: HandbookIndividual,
    ministries: Seq<RoleRecord>,
    shadows: Seq<RoleRecord>,
    r: Seq<PositionRecord>,
) -> bool {
    let n = position_count(ind, ministries, shadows);
    exists|p: Seq<usize>|
        {
            &&& is_permutation(p, n)
            &&& ordered_desc(Seq::new(n, |k: int| from_key(ind, ministries, shadows, k)), p)
            &&& r.len() == n
            &&& forall|i: int|
                0 <= i < n ==> position_entry(ind, ministries, shadows, #[trigger] p[i] as int, r[i])
        }
}

fn from_text(p: &PositionRecord) -> (r: String)
    ensures
        r@ == crate::wikidata::or_empty_view(opt_view(p.from)),
{
    proof {
        reveal_strlit("");
    }
    match &p.from {
        Some(f) => f.clone(),
        None => owned(""),
    }
}

fn unsorted_positions(
    ind: &HandbookIndividual,
    ministries: &Vec<RoleRecord>,
    shadows: &Vec<RoleRecord>,
) -> (r: (Vec<PositionRecord>, Vec<String>))
    requires
        ministries@.len() + shadows@.len() + vec_or_empty(ind.parliamentary_positions).len()
            <= usize::MAX,
    ensures
        r.0@.len() == position_count(*ind, ministries@, shadows@),
        r.1@.len() == r.0@.len(),
        forall|k: int| 0 <= k < r.0@.len() ==> position_entry(*ind, ministries@, shadows@, k, #[trigger] r.0@[k]),
        forall|k: int| 0 <= k < r.1@.len() ==> (#[trigger] r.1@[k])@ == from_key(*ind, ministries@, shadows@, k),
{
    let mut all: Vec<PositionRecord> = Vec::new();
    let mut keys: Vec<String> = Vec::new();
    let mut i: usize = 0;
    while i < ministries.len()
        invariant
            i <= ministries@.len(),
            all@.len() == i,
            keys@.len() == i,
            forall|k: int| 0 <= k < i ==> position_entry(*ind, ministries@, shadows@, k, #[trigger] all@[k]),
            forall|k: int| 0 <= k < i ==> (#[trigger] keys@[k])@ == from_key(*ind, ministries@, shadows@, k),
        decreases ministries@.len() - i,
    {
        let p = to_position(&ministries[i], PositionKind::Ministry);
        keys.push(from_text(&p));
        all.push(p);
        i = i + 1;
    }
    let mut j: usize = 0;
    while j < shadows.len()
        invariant
            j <= shadows@.len(),
            ministries@.len() + shadows@.len() <= usize::MAX,
            all@.len() == ministries@.len() + j,
            keys@.len() == ministries@.len() + j,
            forall|k: int| 0 <= k < all@.len() ==> position_entry(*ind, ministries@, shadows@, k, #[trigger] all@[k]),
            forall|k: int| 0 <= k < keys@.len() ==> (#[trigger] keys@[k])@ == from_key(*ind, ministries@, shadows@, k),
        decreases shadows@.len() - j,
    {
        let p = to_position(&shadows[j], PositionKind::Shadow);
        keys.push(from_text(&p));
        all.push(p);
        j = j + 1;
    }
    match &ind.parliamentary_positions {
        Some(list) => {
            let mut k: usize = 0;
            while k < list.len()
                invariant
                    k <= list@.len(),
                    ind.parliamentary_positions == Some(*list),
                    ministries@.len() + shadows@.len() + list@.len() <= usize::MAX,
                    all@.len() == ministries@.len() + shadows@.len() + k,
                    keys@.len() == all@.len(),
                    forall|m: int| 0 <= m < all@.len() ==> position_entry(*ind, ministries@, shadows@, m, #[trigger] all@[m]),
                    forall|m: int| 0 <= m < keys@.len() ==> (#[trigger] keys@[m])@ == from_key(*ind, ministries@, shadows@, m),
                decreases list@.len() - k,
            {
                proof {
                    reveal_strlit("");
                }
                all.push(PositionRecord { role: list[k].clone(), ministry: None, kind: PositionKind::Position, from: None, to: None });
                keys.push(owned(""));
                k = k + 1;
            }
        },
        None => {},
    }
    (all, keys)
}

pub fn assemble_positions(
    ind: &HandbookIndividual,
    ministries: &Vec<RoleRecord>,
    shadows: &Vec<RoleRecord>,
) -> (r: Vec<PositionRecord>)
    requires
        ministries@.len() + shadows@.len() + vec_or_empty(ind.parliamentary_positions).len()
            <= usize::MAX,
    ensures
        positions_of(*ind, ministries@, shadows@, r@),
{
    let ghost n = position_count(*ind, ministries@, shadows@);
    let ghost keyf = Seq::new(n, |k: int| from_key(*ind, ministries@, shadows@, k));
    let (all, keys) = unsorted_positions(ind, ministries, shadows);
    proof {
        assert(string_views(keys@) =~= keyf);
    }
    let ghost unsorted = all@;
    let r = sorted_by(all, &keys, true);
    proof {
        let p = choose|p: Seq<usize>|
            {
                &&& is_permutation(p, unsorted.len())
                &&& crate::sorting::ordered_dir(string_views(keys@), p, true)
                &&& r@.len() == unsorted.len()
                &&& forall|i: int| 0 <= i < r@.len() ==> r@[i] == unsorted[#[trigger] p[i] as int]
            };
        assert forall|i: int| 0 <= i < n implies position_entry(*ind, ministries@, shadows@, #[trigger] p[i] as int, r@[i]) by {
            assert(r@[i] == unsorted[p[i] as int]);
        }
        assert(ordered_desc(keyf, p));
    }
    r
}

// ---------------------------------------------------------------------------
// Backgrounds
// ---------------------------------------------------------------------------

/// Town of birth, then state or (failing that) country, comma-separated.
pub open spec fn birthplace_of(ind: HandbookIndividual) -> Option<Seq<char>> {
    let place = nonempty(ind.place_of_birth);
    let region = match nonempty(ind.state_of_birth) {
        Some(s) => Some(s),
        None => nonempty(ind.country_of_birth),
    };
    match (place, region) {
        (Some(p), Some(s)) => Some(p + ", "@ + s),
        (Some(p), None) => Some(p),
        (None, Some(s)) => Some(s),
        (None, None) => None,
    }
}


/// The background a Handbook individual gives.
pub open spec fn background_of(ind: HandbookIndividual, b: Background) -> bool {
    &&& opt_view(b.born) == nonempty(ind.date_of_birth)
    &&& opt_view(b.birthplace) == birthplace_of(ind)
    &&& string_views(b.occupations@) == string_views(vec_or_empty(ind.occupations))
    &&& string_views(b.qualifications@) == string_views(vec_or_empty(ind.qualifications))
    &&& string_views(b.honours@) == string_views(vec_or_empty(ind.honours))
    &&& opt_view(b.service_start) == nonempty(ind.service_history_start)
    &&& b.parliaments@ == vec_or_empty(ind.represented_parliaments)
}

fn copy_strings(o: &Option<Vec<String>>) -> (r: Vec<String>)
    ensures
        string_views(r@) == string_views(vec_or_empty(*o)),
{
    let mut out: Vec<String> = Vec::new();
    match o {
        Some(v) => {
            let mut i: usize = 0;
            while i < v.len()
                invariant
                    i <= v@.len(),
                    string_views(out@) == string_views(v@.take(i as int)),
                decreases v@.len() - i,
            {
                let ghost before = out@;
                out.push(v[i].clone());
                proof {
                    assert(v@.take(i + 1) =~= v@.take(i as int).push(v@[i as int]));
                    assert(string_views(out@) =~= string_views(before).push(v@[i as int]@));
                    assert(string_views(v@.take(i + 1)) =~= string_views(v@.take(i as int)).push(v@[i as int]@));
                }
                i = i + 1;
            }
            proof {
                assert(v@.take(v@.len() as int) =~= v@);
            }
        },
        None => {
            proof {
                assert(string_views(out@) =~= string_views(Seq::<String>::empty()));
            }
        },
    }
    out
}

fn copy_ints(o: &Option<Vec<i64>>) -> (r: Vec<i64>)
    ensures
        r@ == vec_or_empty(*o),
{
    let mut out: Vec<i64> = Vec::new();
    match o {
        Some(v) => {
            let mut i: usize = 0;
            while i < v.len()
                invariant
                    i <= v@.len(),
                    out@ == v@.take(i as int),
                decreases v@.len() - i,
            {
                out.push(v[i]);
                proof {
                    assert(out@ =~= v@.take(i + 1));
                }
                i = i + 1;
            }
            proof {
                assert(v@.take(v@.len() as int) =~= v@);
            }
        },
        None => {
            proof {
                assert(out@ =~= Seq::<i64>::empty());
            }
        },
    }
    out
}

/// A birthplace joins the town of birth to the state of birth, preferring
/// the state over the country: the country stands in only when the state is
/// missing or empty; whichever of town and region is missing or empty is
/// left out, and with neither there is no birthplace.
pub proof fn law_birthplace_prefers_state(ind: HandbookIndividual, b: Background)
    requires
        background_of(ind, b),
    ensures
        ({
            let town = ind.place_of_birth;
            let state = ind.state_of_birth;
            let country = ind.country_of_birth;
            let has_town = town matches Some(t) && t@.len() > 0;
            let has_state = state matches Some(s) && s@.len() > 0;
            let has_country = country matches Some(c) && c@.len() > 0;
            &&& has_town && has_state ==> opt_view(b.birthplace) == Some(
                town.unwrap()@ + ", "@ + state.unwrap()@,
            )
            &&& has_town && !has_state && has_country ==> opt_view(b.birthplace) == Some(
                town.unwrap()@ + ", "@ + country.unwrap()@,
            )
            &&& has_town && !has_state && !has_country ==> opt_view(b.birthplace) == Some(
                town.unwrap()@,
            )
            &&& !has_town && has_state ==> opt_view(b.birthplace) == Some(state.unwrap()@)
            &&& !has_town && !has_state && has_country ==> opt_view(b.birthplace) == Some(
                country.unwrap()@,
            )
            &&& !has_town && !has_state && !has_country ==> b.birthplace is None
        }),
{
}

/// A background keeps the date of birth and the start of service when they
/// are given and not empty, and drops them otherwise.
pub proof fn law_background_keeps_given_dates(ind: HandbookIndividual, b: Background)
    requires
        background_of(ind, b),
    ensures
        (ind.date_of_birth matches Some(s) && s@.len() > 0) ==> b.born is Some && b.born.unwrap()@
            == ind.date_of_birth.unwrap()@,
        !(ind.date_of_birth matches Some(s) && s@.len() > 0) ==> b.born is None,
        (ind.service_history_start matches Some(s) && s@.len() > 0) ==> b.service_start is Some
            && b.service_start.unwrap()@ == ind.service_history_start.unwrap()@,
        !(ind.service_history_start matches Some(s) && s@.len() > 0) ==> b.service_start is None,
{
}

pub fn background_from(ind: &HandbookIndividual) -> (b: Background)
    ensures
        background_of(*ind, b),
{
    let place = nonempty_exec(&ind.place_of_birth);
    let region = match nonempty_exec(&ind.state_of_birth) {
        Some(s) => Some(s),
        None => nonempty_exec(&ind.country_of_birth),
    };
    let birthplace = match (place, region) {
        (Some(p), Some(s)) => Some(concat3(p.as_str(), ", ", s.as_str())),
        (Some(p), None) => Some(p),
        (None, Some(s)) => Some(s),
        (None, None) => None,
    };
    Background {
        born: nonempty_exec(&ind.date_of_birth),
        birthplace,
        occupations: copy_strings(&ind.occupations),
        qualifications: copy_strings(&ind.qualifications),
        honours: copy_strings(&ind.honours),
        service_start: nonempty_exec(&ind.service_history_start),
        parliaments: copy_ints(&ind.represented_parliaments),
    }
}

/// The stored profile: the individual's background and positions, stamped
/// with the Handbook id and when it was stored.
pub fn build_profile(
    ind: &HandbookIndividual,
    phid: &str,
    stored_at: &str,
    ministries: &Vec<RoleRecord>,
    shadows: &Vec<RoleRecord>,
) -> (r: HandbookProfile)
    requires
        ministries@.len() + shadows@.len() + vec_or_empty(ind.parliamentary_positions).len()
            <= usize::MAX,
    ensures
        r.phid@ == phid@,
        r.stored_at@ == stored_at@,
        background_of(*ind, r.background),
        positions_of(*ind, ministries@, shadows@, r.positions@),
{
    HandbookProfile {
        phid: owned(phid),
        stored_at: owned(stored_at),
        background: background_from(ind),
        positions: assemble_positions(ind, ministries, shadows),
    }
}


// ---------------------------------------------------------------------------
// Matching individuals to people
// ---------------------------------------------------------------------------

pub open spec fn text_or_empty(o: Option<String>) -> Seq<char> {
    match o {
        Some(s) => s@,
        None => Seq::empty(),
    }
}

/// The text with its round brackets removed.
pub open spec fn drop_parens(s: Seq<char>) -> Seq<char>
    decreases s.len(),
{
    if s.len() == 0 {
        s
    } else if s.last() == '(' || s.last() == ')' {
        drop_parens(s.drop_last())
    } else {
        drop_parens(s.drop_last()).push(s.last())
    }
}

/// A preferred name as written without its brackets: "(Alex)" is "Alex".
pub open spec fn preferred_of(ind: HandbookIndividual) -> Seq<char> {
    trim_seq(drop_parens(text_or_empty(ind.preferred_name)))
}

/// The slugs a person carrying this individual's name could have: of the
/// given and family name, and of the preferred and family name; empty
/// slugs are no candidates.
pub open spec fn name_candidates(ind: HandbookIndividual) -> Seq<Seq<char>> {
    let family = text_or_empty(ind.family_name);
    let c1 = slugify_spec(text_or_empty(ind.given_name) + " "@ + family);
    let c2 = slugify_spec(preferred_of(ind) + " "@ + family);
    let first = if c1.len() > 0 {
        seq![c1]
    } else {
        Seq::empty()
    };
    if preferred_of(ind).len() > 0 && c2.len() > 0 {
        first.push(c2)
    } else {
        first
    }
}

/// Family name and seat agree: the name's slug ends in the family name's
/// slug, and the electorate or the state is the individual's.
pub open spec fn seat_agrees(p: Person, ind: HandbookIndividual) -> bool {
    let family_slug = slugify_spec(text_or_empty(ind.family_name));
    let electorate_slug = slugify_spec(text_or_empty(ind.electorate));
    let state_upper = uppercase_of(text_or_empty(ind.state_abbrev));
    has_suffix(slugify_spec(p.name@), "-"@ + family_slug) && (opt_view(p.electorate) == Some(
        electorate_slug,
    ) || (p.state is Some && state_name(p.state.unwrap()) == state_upper))
}

/// The first person whose slug is a candidate (or, with `by_seat`, whose
/// family name and seat agree), or -1.
pub open spec fn first_person(people: Seq<Person>, ind: HandbookIndividual, by_seat: bool) -> int
    decreases people.len(),
{
    if people.len() == 0 {
        -1
    } else {
        let r = first_person(people.drop_last(), ind, by_seat);
        let hit = if by_seat {
            seat_agrees(people.last(), ind)
        } else {
            name_candidates(ind).contains(people.last().slug@)
        };
        if r >= 0 {
            r
        } else if hit {
            people.len() - 1
        } else {
            -1
        }
    }
}

pub open spec fn seat_count(people: Seq<Person>, ind: HandbookIndividual) -> nat
    decreases people.len(),
{
    if people.len() == 0 {
        0
    } else {
        seat_count(people.drop_last(), ind) + if seat_agrees(people.last(), ind) {
            1nat
        } else {
            0nat
        }
    }
}

proof fn lemma_first_person(people: Seq<Person>, ind: HandbookIndividual, by_seat: bool)
    ensures
        -1 <= first_person(people, ind, by_seat) < people.len(),
        by_seat && seat_count(people, ind) > 0 ==> first_person(people, ind, by_seat) >= 0,
    decreases people.len(),
{
    if people.len() > 0 {
        lemma_first_person(people.drop_last(), ind, by_seat);
    }
}

/// The person an individual is: by name, else the only person whose family
/// name and seat agree; -1 for none.
pub open spec fn individual_match(people: Seq<Person>, ind: HandbookIndividual) -> int {
    let direct = first_person(people, ind, false);
    if direct >= 0 {
        direct
    } else if seat_count(people, ind) == 1 {
        first_person(people, ind, true)
    } else {
        -1
    }
}

/// Matched slugs, each with the position of its individual, in listing order.
pub open spec fn handbook_entries(inds: Seq<HandbookIndividual>, people: Seq<Person>) -> Seq<(Seq<char>, i64)>
    decreases inds.len(),
{
    if inds.len() == 0 {
        Seq::empty()
    } else {
        let prev = handbook_entries(inds.drop_last(), people);
        let m = individual_match(people, inds.last());
        if 0 <= m < people.len() {
            crate::collections::entries_insert(prev, people[m].slug@, (inds.len() - 1) as i64)
        } else {
            prev
        }
    }
}

fn drop_parens_exec(s: &str) -> (r: String)
    ensures
        r@ == drop_parens(s@),
{
    let v = chars_of(s);
    let mut out: Vec<char> = Vec::new();
    let mut i: usize = 0;
    while i < v.len()
        invariant
            i <= v@.len(),
            out@ == drop_parens(v@.take(i as int)),
        decreases v@.len() - i,
    {
        proof {
            assert(v@.take(i + 1).drop_last() =~= v@.take(i as int));
        }
        if v[i] != '(' && v[i] != ')' {
            out.push(v[i]);
        }
        i = i + 1;
    }
    proof {
        assert(v@.take(v@.len() as int) =~= v@);
    }
    string_of(&out)
}

fn opt_text(o: &Option<String>) -> (r: String)
    ensures
        r@ == text_or_empty(*o),
{
    proof {
        reveal_strlit("");
    }
    match o {
        Some(s) => s.clone(),
        None => owned(""),
    }
}

fn candidates_of(ind: &HandbookIndividual) -> (r: Vec<String>)
    ensures
        crate::text::string_views(r@) == name_candidates(*ind),
{
    let family = opt_text(&ind.family_name);
    let given = opt_text(&ind.given_name);
    let raw_pref = opt_text(&ind.preferred_name);
    let dropped = drop_parens_exec(raw_pref.as_str());
    let preferred = trim(dropped.as_str());
    let n1 = concat3(given.as_str(), " ", family.as_str());
    let c1 = slugify(n1.as_str());
    let mut out: Vec<String> = Vec::new();
    if c1.as_str().unicode_len() > 0 {
        out.push(c1);
    }
    let ghost first = crate::text::string_views(out@);
    proof {
        let c1s = slugify_spec(given@ + " "@ + family@);
        if c1s.len() > 0 {
            assert(first =~= seq![c1s]);
        } else {
            assert(first =~= Seq::<Seq<char>>::empty());
        }
    }
    if preferred.as_str().unicode_len() > 0 {
        let n2 = concat3(preferred.as_str(), " ", family.as_str());
        let c2 = slugify(n2.as_str());
        if c2.as_str().unicode_len() > 0 {
            let ghost before = out@;
            out.push(c2);
            proof {
                assert(crate::text::string_views(out@) =~= crate::text::string_views(before).push(out@.last()@));
            }
        }
    }
    out
}

fn seat_agrees_exec(p: &Person, family_suffix: &str, electorate_slug: &str, state_upper: &str, Ghost(ind): Ghost<HandbookIndividual>) -> (r: bool)
    requires
        family_suffix@ == "-"@ + slugify_spec(text_or_empty(ind.family_name)),
        electorate_slug@ == slugify_spec(text_or_empty(ind.electorate)),
        state_upper@ == uppercase_of(text_or_empty(ind.state_abbrev)),
    ensures
        r == seat_agrees(*p, ind),
{
    let name_slug = slugify(p.name.as_str());
    if !crate::text::ends_with(name_slug.as_str(), family_suffix) {
        return false;
    }
    let by_electorate = match &p.electorate {
        Some(e) => str_eq(e.as_str(), electorate_slug),
        None => false,
    };
    let by_state = match p.state {
        Some(st) => str_eq(st.as_str(), state_upper),
        None => false,
    };
    by_electorate || by_state
}

fn individual_match_exec(people: &[Person], ind: &HandbookIndividual) -> (r: Option<usize>)
    ensures
        match r {
            Some(i) => i as int == individual_match(people@, *ind) && i < people@.len(),
            None => individual_match(people@, *ind) < 0,
        },
{
    let cands = candidates_of(ind);
    let family = opt_text(&ind.family_name);
    let family_slug = slugify(family.as_str());
    let family_suffix = concat2("-", family_slug.as_str());
    let electorate = opt_text(&ind.electorate);
    let electorate_slug = slugify(electorate.as_str());
    let abbrev = opt_text(&ind.state_abbrev);
    let state_upper = to_upper(abbrev.as_str());
    let mut direct: Option<usize> = None;
    let mut seat_first: Option<usize> = None;
    let mut seats: usize = 0;
    let mut j: usize = 0;
    while j < people.len()
        invariant
            j <= people@.len(),
            crate::text::string_views(cands@) == name_candidates(*ind),
            family_suffix@ == "-"@ + slugify_spec(text_or_empty(ind.family_name)),
            electorate_slug@ == slugify_spec(text_or_empty(ind.electorate)),
            state_upper@ == uppercase_of(text_or_empty(ind.state_abbrev)),
            seats == seat_count(people@.take(j as int), *ind),
            seats <= j,
            match direct {
                Some(d) => d as int == first_person(people@.take(j as int), *ind, false) && d < j,
                None => first_person(people@.take(j as int), *ind, false) == -1,
            },
            match seat_first {
                Some(d) => d as int == first_person(people@.take(j as int), *ind, true) && d < j,
                None => first_person(people@.take(j as int), *ind, true) == -1,
            },
        decreases people@.len() - j,
    {
        let p = &people[j];
        proof {
            assert(people@.take(j + 1).drop_last() =~= people@.take(j as int));
            assert(people@.take(j + 1).last() == people@[j as int]);
        }
        if direct.is_none() {
            let mut k: usize = 0;
            let mut hit = false;
            while k < cands.len()
                invariant
                    k <= cands@.len(),
                    hit == exists|m: int| 0 <= m < k && cands@[m]@ == p.slug@,
                decreases cands@.len() - k,
            {
                if str_eq(cands[k].as_str(), p.slug.as_str()) {
                    hit = true;
                }
                k = k + 1;
            }
            proof {
                if hit {
                    let m = choose|m: int| 0 <= m < k && cands@[m]@ == p.slug@;
                    assert(crate::text::string_views(cands@)[m] == p.slug@);
                }
                if name_candidates(*ind).contains(p.slug@) {
                    let m = choose|m: int| 0 <= m < name_candidates(*ind).len() && name_candidates(*ind)[m] == p.slug@;
                    assert(cands@[m]@ == p.slug@);
                }
            }
            if hit {
                direct = Some(j);
            }
        }
        let agrees = seat_agrees_exec(p, family_suffix.as_str(), electorate_slug.as_str(), state_upper.as_str(), Ghost(*ind));
        if agrees {
            seats = seats + 1;
            if seat_first.is_none() {
                seat_first = Some(j);
            }
        }
        j = j + 1;
    }
    proof {
        assert(people@.take(people@.len() as int) =~= people@);
        lemma_first_person(people@, *ind, false);
        lemma_first_person(people@, *ind, true);
    }
    match direct {
        Some(d) => Some(d),
        None => if seats == 1 {
            seat_first
        } else {
            None
        },
    }
}

/// Match Handbook individuals to people by name, falling back to family
/// name and seat when first names diverge; an ambiguous or absent match is
/// left out rather than guessed. Each matched slug maps to the position of
/// its individual in `individuals`.
pub fn match_people(individuals: &[HandbookIndividual], people: &[Person]) -> (r: IndexMap<String, i64>)
    requires
        individuals@.len() <= i64::MAX,
    ensures
        id_map_entries(r) == handbook_entries(individuals@, people@),
        keys_distinct(id_map_entries(r)),
{
    let mut out = id_map_new();
    let mut t: usize = 0;
    while t < individuals.len()
        invariant
            t <= individuals@.len() <= i64::MAX,
            id_map_entries(out) == handbook_entries(individuals@.take(t as int), people@),
            keys_distinct(id_map_entries(out)),
        decreases individuals@.len() - t,
    {
        proof {
            assert(individuals@.take(t + 1).drop_last() =~= individuals@.take(t as int));
            assert(individuals@.take(t + 1).last() == individuals@[t as int]);
        }
        match individual_match_exec(people, &individuals[t]) {
            Some(i) => {
                proof {
                    law_insert_then_get(id_map_entries(out), people@[i as int].slug@, t as i64, Seq::empty());
                }
                id_map_insert(&mut out, people[i].slug.clone(), t as i64);
            },
            None => {},
        }
        t = t + 1;
    }
    proof {
        assert(individuals@.take(individuals@.len() as int) =~= individuals@);
    }
    out
}

// ---------------------------------------------------------------------------
// When to refresh, and the requests
// ---------------------------------------------------------------------------

/// The Unix time in milliseconds of an RFC 3339 timestamp, as chrono reads
/// it; nothing when chrono does not read it. The grammar and the calendar
/// take pages, so the result is named.
pub uninterp spec fn rfc3339_millis(s: Seq<char>) -> Option<i64>;

/// `DateTime::parse_from_rfc3339` then `timestamp_millis`, from chrono.
#[verifier::external_body]
pub(crate) fn parse_rfc3339_millis(s: &str) -> (r: Option<i64>)
    ensures
        r == rfc3339_millis(s@),
{
    match chrono::DateTime::parse_from_rfc3339(s) {
        Ok(t) => Some(t.timestamp_millis()),
        Err(_) => None,
    }
}

/// Whether a stored profile is for this Handbook id and younger than a
/// week at `now_ms`; an unreadable timestamp counts as infinitely old.
pub open spec fn profile_current(existing: Option<HandbookProfile>, phid: Seq<char>, now_ms: i64) -> bool {
    match existing {
        Some(e) => e.phid@ == phid && match rfc3339_millis(e.stored_at@) {
            Some(then) => now_ms - then < REFRESH_MILLIS,
            None => false,
        },
        None => false,
    }
}

pub fn profile_is_current(existing: Option<&HandbookProfile>, phid: &str, now_ms: i64) -> (r: bool)
    ensures
        r == profile_current(
            match existing {
                Some(e) => Some(*e),
                None => None,
            },
            phid@,
            now_ms,
        ),
{
    match existing {
        Some(e) => {
            if !str_eq(e.phid.as_str(), phid) {
                return false;
            }
            match parse_rfc3339_millis(e.stored_at.as_str()) {
                Some(then) => {
                    let age: i128 = now_ms as i128 - then as i128;
                    age < REFRESH_MILLIS as i128
                },
                None => false,
            }
        },
        None => false,
    }
}

/// An individual's Handbook id, unless absent or empty.
pub fn usable_phid(ind: &HandbookIndividual) -> (r: Option<String>)
    ensures
        opt_view(r) == nonempty(ind.phid),
{
    nonempty_exec(&ind.phid)
}

/// `canonical/handbook/{slug}.json`.
pub fn profile_key(slug: &str) -> (r: String)
    ensures
        r@ == "canonical/handbook/"@ + slug@ + ".json"@,
{
    concat3("canonical/handbook/", slug, ".json")
}

/// The OData filter for one person's role records.
pub fn roles_filter(phid: &str) -> (r: String)
    ensures
        r@ == "PHID eq '"@ + phid@ + "'"@,
{
    concat3("PHID eq '", phid, "'")
}

/// The listing's paging parameters.
pub fn listing_extra(skip: u64) -> (r: String)
    ensures
        r@ == "&$top=100&$skip="@ + decimal_int(skip as int),
{
    let n = crate::text::uint_text(skip);
    concat2("&$top=100&$skip=", n.as_str())
}

/// The listing goes on while pages come back full.
pub fn next_skip(skip: u64, count: usize) -> (r: Option<u64>)
    requires
        skip <= i64::MAX - 100,
    ensures
        r == if count < ODATA_PAGE {
            None
        } else {
            Some((skip + 100) as u64)
        },
{
    if count < ODATA_PAGE {
        None
    } else {
        Some(skip + 100)
    }
}

/// `{endpoint}?%24filter={filter}{extra}`: the filter percent-encoded and
/// each `$` of the extra parameters written `%24`.
pub fn odata_encoded_url(endpoint: &str, filter: &str, extra: &str) -> (r: String)
    ensures
        r@ == endpoint@ + "?%24filter="@ + uri_component(filter@) + replace_seq(extra@, "$"@, "%24"@),
{
    let f = encode_uri_component(filter);
    let e = crate::text::replace_all(extra, "$", "%24");
    let head = concat3(endpoint, "?%24filter=", f.as_str());
    concat2(head.as_str(), e.as_str())
}

/// `{endpoint}?$filter={filter}{extra}`, with only the filter's spaces and
/// quotes escaped: the form some networks need.
pub fn odata_literal_url(endpoint: &str, filter: &str, extra: &str) -> (r: String)
    ensures
        r@ == endpoint@ + "?$filter="@ + replace_seq(replace_seq(filter@, " "@, "%20"@), "'"@, "%27"@)
            + extra@,
{
    let spaced = crate::text::replace_all(filter, " ", "%20");
    let quoted = crate::text::replace_all(spaced.as_str(), "'", "%27");
    let head = concat3(endpoint, "?$filter=", quoted.as_str());
    concat2(head.as_str(), extra)
}

/// A refusal of the encoded form (a bare 400) is asked again in the literal form.
pub fn odata_retry_literal(failure: &str) -> (r: bool)
    ensures
        r == crate::text::contains_seq(failure@, " 400 "@),
{
    crate::text::contains(failure, " 400 ")
}

/// Stamp the Handbook id onto the first person with the slug; the position
/// of that person when the id changed (to be stored again).
pub fn stamp_phid(people: &mut Vec<Person>, slug: &str, phid: &str) -> (r: Option<usize>)
    ensures
        final(people)@.len() == old(people)@.len(),
        match r {
            Some(i) => {
                &&& i < old(people)@.len()
                &&& old(people)@[i as int].slug@ == slug@
                &&& forall|k: int| 0 <= k < i ==> old(people)@[k].slug@ != slug@
                &&& opt_view(old(people)@[i as int].ids.aph) != Some(phid@)
                &&& opt_view(final(people)@[i as int].ids.aph) == Some(phid@)
                &&& final(people)@[i as int] == (Person {
                    ids: crate::schema::PersonIds { aph: final(people)@[i as int].ids.aph, ..old(people)@[i as int].ids },
                    ..old(people)@[i as int]
                })
                &&& forall|k: int| 0 <= k < old(people)@.len() && k != i ==> final(people)@[k] == old(people)@[k]
            },
            None => final(people)@ == old(people)@ && forall|k: int|
                0 <= k < old(people)@.len() && old(people)@[k].slug@ == slug@ ==> (forall|m: int|
                    0 <= m < k ==> old(people)@[m].slug@ != slug@) ==> opt_view(old(people)@[k].ids.aph) == Some(phid@),
        },
{
    let mut i: usize = 0;
    while i < people.len()
        invariant
            i <= people@.len(),
            people@ == old(people)@,
            forall|k: int| 0 <= k < i ==> old(people)@[k].slug@ != slug@,
        decreases people@.len() - i,
    {
        if str_eq(people[i].slug.as_str(), slug) {
            let same = match &people[i].ids.aph {
                Some(a) => str_eq(a.as_str(), phid),
                None => false,
            };
            if same {
                return None;
            }
            let mut p = people.remove(i);
            p.ids.aph = Some(owned(phid));
            people.insert(i, p);
            return Some(i);
        }
        i = i + 1;
    }
    None
}

} // verus!
