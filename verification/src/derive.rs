//! Turning canonical entities into the precomputed bundles the site build
//! reads: links between records, vote statistics, parties and their seats,
//! election histories, the order of every bundle and the quick-search index.

use crate::aph::opt_view;
use crate::collections::{
    entries_get, id_map_entries, id_map_get, id_map_insert, id_map_new, keys_distinct,
    law_insert_then_get,
};
use crate::schema::{
    house_name, state_name, Bill, Division, House, Party, PartySeats, Person, PersonStats,
};
use crate::slug::{slugify, slugify_spec};
use crate::text::{chars_of, concat2, concat3, owned, str_eq, string_of};
use crate::text::string_views;
use vstd::prelude::*;

verus! {

// ---------------------------------------------------------------------------
// Vote statistics
// ---------------------------------------------------------------------------

/// How many recorded votes carry the slug (`against`: only those against
/// the voter's party majority).
pub open spec fn votes_by(divs: Seq<Division>, slug: Seq<char>, against: bool) -> nat
    decreases divs.len(),
{
    if divs.len() == 0 {
        0
    } else {
        votes_by(divs.drop_last(), slug, against) + votes_in(divs.last().votes@, slug, against)
    }
}

pub open spec fn votes_in(votes: Seq<crate::schema::VoteCast>, slug: Seq<char>, against: bool) -> nat
    decreases votes.len(),
{
    if votes.len() == 0 {
        0
    } else {
        let v = votes.last();
        votes_in(votes.drop_last(), slug, against) + if v.person_slug@ == slug && (!against
            || v.against_group_majority == Some(true)) {
            1nat
        } else {
            0nat
        }
    }
}

/// Every vote recorded across the divisions.
pub open spec fn all_votes(divs: Seq<Division>) -> nat
    decreases divs.len(),
{
    if divs.len() == 0 {
        0
    } else {
        all_votes(divs.drop_last()) + divs.last().votes@.len()
    }
}

proof fn lemma_votes_in_bound(votes: Seq<crate::schema::VoteCast>, slug: Seq<char>, against: bool)
    ensures
        votes_in(votes, slug, against) <= votes.len(),
    decreases votes.len(),
{
    if votes.len() > 0 {
        lemma_votes_in_bound(votes.drop_last(), slug, against);
    }
}

proof fn lemma_votes_by_bound(divs: Seq<Division>, slug: Seq<char>, against: bool)
    ensures
        votes_by(divs, slug, against) <= all_votes(divs),
    decreases divs.len(),
{
    if divs.len() > 0 {
        lemma_votes_by_bound(divs.drop_last(), slug, against);
        lemma_votes_in_bound(divs.last().votes@, slug, against);
    }
}

/// A person's statistics: divisions held in their chamber, how many they
/// voted in, and how often against their party; none while their chamber
/// has held no division.
pub open spec fn stats_for(p: Person, divs: Seq<Division>) -> Option<PersonStats> {
    let eligible = crate::summarise::chamber_count(divs, p.house);
    if eligible == 0 {
        p.stats
    } else {
        Some(
            PersonStats {
                divisions_eligible: eligible as i64,
                divisions_voted: votes_by(divs, p.slug@, false) as i64,
                against_group_majority: votes_by(divs, p.slug@, true) as i64,
            },
        )
    }
}

/// Counts per slug over every vote: voted, and voted against the majority.
fn vote_tallies(divisions: &[Division]) -> (r: (indexmap::IndexMap<String, i64>, indexmap::IndexMap<String, i64>))
    requires
        all_votes(divisions@) <= i64::MAX,
    ensures
        forall|slug: Seq<char>|
            #![trigger entries_get(id_map_entries(r.0), slug)]
            votes_by(divisions@, slug, false) > 0 ==> entries_get(id_map_entries(r.0), slug) == Some(
                votes_by(divisions@, slug, false) as i64,
            ),
        forall|slug: Seq<char>|
            #![trigger entries_get(id_map_entries(r.0), slug)]
            votes_by(divisions@, slug, false) == 0 ==> entries_get(id_map_entries(r.0), slug) is None,
        forall|slug: Seq<char>|
            #![trigger entries_get(id_map_entries(r.1), slug)]
            entries_get(id_map_entries(r.1), slug) == if votes_by(divisions@, slug, false) > 0 {
                Some(votes_by(divisions@, slug, true) as i64)
            } else {
                None
            },
{
    let mut voted = id_map_new();
    let mut against = id_map_new();
    let mut d: usize = 0;
    while d < divisions.len()
        invariant
            d <= divisions@.len(),
            all_votes(divisions@) <= i64::MAX,
            keys_distinct(id_map_entries(voted)),
            keys_distinct(id_map_entries(against)),
            forall|slug: Seq<char>|
                #![trigger entries_get(id_map_entries(voted), slug)]
                entries_get(id_map_entries(voted), slug) == if votes_by(divisions@.take(d as int), slug, false) > 0 {
                    Some(votes_by(divisions@.take(d as int), slug, false) as i64)
                } else {
                    None
                },
            forall|slug: Seq<char>|
                #![trigger entries_get(id_map_entries(against), slug)]
                entries_get(id_map_entries(against), slug) == if votes_by(divisions@.take(d as int), slug, false) > 0 {
                    Some(votes_by(divisions@.take(d as int), slug, true) as i64)
                } else {
                    None
                },
        decreases divisions@.len() - d,
    {
        let div = &divisions[d];
        let ghost pre = divisions@.take(d as int);
        proof {
            assert(divisions@.take(d + 1).drop_last() =~= pre);
            assert(divisions@.take(d + 1).last() == divisions@[d as int]);
            lemma_all_votes_prefix(divisions@, d + 1);
        }
        let mut k: usize = 0;
        while k < div.votes.len()
            invariant
                k <= div.votes@.len(),
                d < divisions@.len(),
                *div == divisions@[d as int],
                pre == divisions@.take(d as int),
                all_votes(pre) + div.votes@.len() <= i64::MAX,
                keys_distinct(id_map_entries(voted)),
                keys_distinct(id_map_entries(against)),
                forall|slug: Seq<char>|
                    #![trigger entries_get(id_map_entries(voted), slug)]
                    entries_get(id_map_entries(voted), slug) == if votes_by(pre, slug, false) + votes_in(div.votes@.take(k as int), slug, false) > 0 {
                        Some((votes_by(pre, slug, false) + votes_in(div.votes@.take(k as int), slug, false)) as i64)
                    } else {
                        None
                    },
                forall|slug: Seq<char>|
                    #![trigger entries_get(id_map_entries(against), slug)]
                    entries_get(id_map_entries(against), slug) == if votes_by(pre, slug, false) + votes_in(div.votes@.take(k as int), slug, false) > 0 {
                        Some((votes_by(pre, slug, true) + votes_in(div.votes@.take(k as int), slug, true)) as i64)
                    } else {
                        None
                    },
            decreases div.votes@.len() - k,
        {
            let v = &div.votes[k];
            let ghost slug = v.person_slug@;
            let ghost vk = div.votes@.take(k as int);
            proof {
                assert(div.votes@.take(k + 1).drop_last() =~= vk);
                assert(div.votes@.take(k + 1).last() == div.votes@[k as int]);
                lemma_votes_by_bound(pre, slug, false);
                lemma_votes_by_bound(pre, slug, true);
                lemma_votes_in_bound(vk, slug, false);
                lemma_votes_in_bound(vk, slug, true);
                lemma_votes_in_against_le(vk, slug);
                lemma_votes_by_against_le(pre, slug);
            }
            let n = match id_map_get(&voted, v.person_slug.as_str()) {
                Some(n) => n,
                None => 0,
            };
            let a = match id_map_get(&against, v.person_slug.as_str()) {
                Some(a) => a,
                None => 0,
            };
            let crossed = match v.against_group_majority {
                Some(b) => b,
                None => false,
            };
            let a2 = if crossed {
                a + 1
            } else {
                a
            };
            let n1 = n + 1;
            proof {
                let ev = id_map_entries(voted);
                let ea = id_map_entries(against);
                let vk1 = div.votes@.take(k + 1);
                assert forall|s: Seq<char>|
                    #![trigger entries_get(crate::collections::entries_insert(ev, slug, n1), s)]
                    entries_get(crate::collections::entries_insert(ev, slug, n1), s) == if votes_by(pre, s, false) + votes_in(vk1, s, false) > 0 {
                        Some((votes_by(pre, s, false) + votes_in(vk1, s, false)) as i64)
                    } else {
                        None
                    } by {
                    law_insert_then_get(ev, slug, n1, s);
                    assert(entries_get(ev, s) == entries_get(id_map_entries(voted), s));
                }
                assert forall|s: Seq<char>|
                    #![trigger entries_get(crate::collections::entries_insert(ea, slug, a2), s)]
                    entries_get(crate::collections::entries_insert(ea, slug, a2), s) == if votes_by(pre, s, false) + votes_in(vk1, s, false) > 0 {
                        Some((votes_by(pre, s, true) + votes_in(vk1, s, true)) as i64)
                    } else {
                        None
                    } by {
                    law_insert_then_get(ea, slug, a2, s);
                    assert(entries_get(ea, s) == entries_get(id_map_entries(against), s));
                    assert(entries_get(ev, s) == entries_get(id_map_entries(voted), s));
                }
                law_insert_then_get(ev, slug, n1, Seq::empty());
                law_insert_then_get(ea, slug, a2, Seq::empty());
            }
            id_map_insert(&mut voted, v.person_slug.clone(), n1);
            id_map_insert(&mut against, v.person_slug.clone(), a2);
            k = k + 1;
        }
        proof {
            assert(div.votes@.take(div.votes@.len() as int) =~= div.votes@);
        }
        d = d + 1;
    }
    proof {
        assert(divisions@.take(divisions@.len() as int) =~= divisions@);
    }
    (voted, against)
}

proof fn lemma_all_votes_prefix(divs: Seq<Division>, n: int)
    requires
        0 < n <= divs.len(),
    ensures
        all_votes(divs.take(n - 1)) + divs[n - 1].votes@.len() <= all_votes(divs),
    decreases divs.len() - n,
{
    assert(divs.take(n).drop_last() =~= divs.take(n - 1));
    if n < divs.len() {
        lemma_all_votes_prefix(divs, n + 1);
        assert(divs.take(n + 1).drop_last() =~= divs.take(n));
    } else {
        assert(divs.take(n) =~= divs);
    }
}

proof fn lemma_votes_in_against_le(votes: Seq<crate::schema::VoteCast>, slug: Seq<char>)
    ensures
        votes_in(votes, slug, true) <= votes_in(votes, slug, false),
    decreases votes.len(),
{
    if votes.len() > 0 {
        lemma_votes_in_against_le(votes.drop_last(), slug);
    }
}

proof fn lemma_votes_by_against_le(divs: Seq<Division>, slug: Seq<char>)
    ensures
        votes_by(divs, slug, true) <= votes_by(divs, slug, false),
    decreases divs.len(),
{
    if divs.len() > 0 {
        lemma_votes_by_against_le(divs.drop_last(), slug);
        lemma_votes_in_against_le(divs.last().votes@, slug);
    }
}

/// A person's votes against their party never outnumber the votes they
/// cast, and neither is negative.
pub proof fn law_against_within_voted(p: Person, divs: Seq<Division>)
    requires
        all_votes(divs) <= i64::MAX,
        crate::summarise::chamber_count(divs, p.house) > 0,
    ensures
        stats_for(p, divs) matches Some(s) && 0 <= s.against_group_majority <= s.divisions_voted,
{
    lemma_votes_by_bound(divs, p.slug@, true);
    lemma_votes_by_bound(divs, p.slug@, false);
    lemma_votes_by_against_le(divs, p.slug@);
}

/// Each person's vote statistics over the divisions.
pub fn compute_vote_stats(people: &mut Vec<Person>, divisions: &[Division])
    requires
        all_votes(divisions@) <= i64::MAX,
        divisions@.len() <= i64::MAX,
    ensures
        final(people)@.len() == old(people)@.len(),
        forall|i: int|
            0 <= i < old(people)@.len() ==> {
                let before = old(people)@[i];
                #[trigger] final(people)@[i] == (Person { stats: stats_for(before, divisions@), ..before })
            },
{
    let (voted, against) = vote_tallies(divisions);
    let reps = crate::summarise::chamber_divisions(divisions, House::Representatives);
    let senate = crate::summarise::chamber_divisions(divisions, House::Senate);
    proof {
        lemma_chamber_count_bound(divisions@, House::Representatives);
        lemma_chamber_count_bound(divisions@, House::Senate);
    }
    let mut i: usize = 0;
    while i < people.len()
        invariant
            i <= people@.len(),
            people@.len() == old(people)@.len(),
            all_votes(divisions@) <= i64::MAX,
            divisions@.len() <= i64::MAX,
            reps == crate::summarise::chamber_count(divisions@, House::Representatives),
            senate == crate::summarise::chamber_count(divisions@, House::Senate),
            reps <= divisions@.len(),
            senate <= divisions@.len(),
            forall|slug: Seq<char>|
                #![trigger entries_get(id_map_entries(voted), slug)]
                votes_by(divisions@, slug, false) > 0 ==> entries_get(id_map_entries(voted), slug) == Some(
                    votes_by(divisions@, slug, false) as i64,
                ),
            forall|slug: Seq<char>|
                #![trigger entries_get(id_map_entries(voted), slug)]
                votes_by(divisions@, slug, false) == 0 ==> entries_get(id_map_entries(voted), slug) is None,
            forall|slug: Seq<char>|
                #![trigger entries_get(id_map_entries(against), slug)]
                entries_get(id_map_entries(against), slug) == if votes_by(divisions@, slug, false) > 0 {
                    Some(votes_by(divisions@, slug, true) as i64)
                } else {
                    None
                },
            forall|j: int| i <= j < people@.len() ==> people@[j] == old(people)@[j],
            forall|j: int|
                0 <= j < i ==> {
                    let before = old(people)@[j];
                    #[trigger] people@[j] == (Person { stats: stats_for(before, divisions@), ..before })
                },
        decreases people@.len() - i,
    {
        let eligible = match people[i].house {
            House::Representatives => reps,
            House::Senate => senate,
        };
        if eligible > 0 {
            let ghost slug = people@[i as int].slug@;
            proof {
                lemma_votes_by_bound(divisions@, slug, false);
                lemma_votes_by_bound(divisions@, slug, true);
                lemma_votes_by_against_le(divisions@, slug);
            }
            let n = match id_map_get(&voted, people[i].slug.as_str()) {
                Some(n) => n,
                None => 0,
            };
            let a = match id_map_get(&against, people[i].slug.as_str()) {
                Some(a) => a,
                None => 0,
            };
            let mut p = people.remove(i);
            p.stats = Some(PersonStats { divisions_eligible: eligible as i64, divisions_voted: n, against_group_majority: a });
            people.insert(i, p);
        }
        i = i + 1;
    }
}

proof fn lemma_chamber_count_bound(divs: Seq<Division>, house: House)
    ensures
        crate::summarise::chamber_count(divs, house) <= divs.len(),
    decreases divs.len(),
{
    if divs.len() > 0 {
        lemma_chamber_count_bound(divs.drop_last(), house);
    }
}


// ---------------------------------------------------------------------------
// Bills and the divisions that cite them
// ---------------------------------------------------------------------------


/// Whether bill `j` is the last with its id (the one a lookup by id finds).
pub open spec fn last_with_id(bills: Seq<Bill>, j: int) -> bool {
    forall|k: int| j < k < bills.len() ==> (#[trigger] bills[k]).id@ != bills[j].id@
}

/// A bill's division links after the divisions: each division citing it
/// added once, in division order, unless already linked.
pub open spec fn linked(acc: Seq<Seq<char>>, bill_id: Seq<char>, is_last: bool, divs: Seq<Division>) -> Seq<Seq<char>>
    decreases divs.len(),
{
    if divs.len() == 0 {
        acc
    } else {
        let prev = linked(acc, bill_id, is_last, divs.drop_last());
        let d = divs.last();
        if is_last && string_views(d.bill_ids@).contains(bill_id) && !prev.contains(d.id@) {
            prev.push(d.id@)
        } else {
            prev
        }
    }
}

/// Position map from bill id to the last bill carrying it.
fn bill_positions(bills: &Vec<Bill>) -> (r: indexmap::IndexMap<String, i64>)
    requires
        bills@.len() <= i64::MAX,
    ensures
        forall|id: Seq<char>|
            #![trigger entries_get(id_map_entries(r), id)]
            match entries_get(id_map_entries(r), id) {
                Some(j) => 0 <= j < bills@.len() && bills@[j as int].id@ == id && last_with_id(bills@, j as int),
                None => forall|k: int| 0 <= k < bills@.len() ==> (#[trigger] bills@[k]).id@ != id,
            },
{
    let mut m = id_map_new();
    let mut i: usize = 0;
    while i < bills.len()
        invariant
            i <= bills@.len() <= i64::MAX,
            keys_distinct(id_map_entries(m)),
            forall|id: Seq<char>|
                #![trigger entries_get(id_map_entries(m), id)]
                match entries_get(id_map_entries(m), id) {
                    Some(j) => 0 <= j < i && bills@[j as int].id@ == id && forall|k: int| j < k < i ==> (#[trigger] bills@[k]).id@ != id,
                    None => forall|k: int| 0 <= k < i ==> (#[trigger] bills@[k]).id@ != id,
                },
        decreases bills@.len() - i,
    {
        proof {
            let e = id_map_entries(m);
            assert forall|id: Seq<char>|
                #![trigger entries_get(crate::collections::entries_insert(e, bills@[i as int].id@, i as i64), id)]
                match entries_get(crate::collections::entries_insert(e, bills@[i as int].id@, i as i64), id) {
                    Some(j) => 0 <= j < i + 1 && bills@[j as int].id@ == id && forall|k: int| j < k < i + 1 ==> (#[trigger] bills@[k]).id@ != id,
                    None => forall|k: int| 0 <= k < i + 1 ==> (#[trigger] bills@[k]).id@ != id,
                } by {
                law_insert_then_get(e, bills@[i as int].id@, i as i64, id);
                assert(entries_get(e, id) == entries_get(id_map_entries(m), id));
            }
            law_insert_then_get(e, bills@[i as int].id@, i as i64, Seq::empty());
        }
        id_map_insert(&mut m, bills[i].id.clone(), i as i64);
        i = i + 1;
    }
    m
}

fn contains_text(v: &Vec<String>, s: &str) -> (r: bool)
    ensures
        r == string_views(v@).contains(s@),
{
    let mut i: usize = 0;
    while i < v.len()
        invariant
            i <= v@.len(),
            forall|k: int| 0 <= k < i ==> v@[k]@ != s@,
        decreases v@.len() - i,
    {
        if str_eq(v[i].as_str(), s) {
            proof {
                assert(string_views(v@)[i as int] == s@);
            }
            return true;
        }
        i = i + 1;
    }
    proof {
        if string_views(v@).contains(s@) {
            let k = choose|k: int| 0 <= k < string_views(v@).len() && string_views(v@)[k] == s@;
            assert(v@[k]@ == s@);
        }
    }
    false
}

/// `a` is `b` with only its division links free.
pub open spec fn bill_same_but_links(a: Bill, b: Bill) -> bool {
    a == (Bill { division_ids: a.division_ids, ..b })
}

proof fn lemma_contains_push(s: Seq<Seq<char>>, a: Seq<char>, x: Seq<char>)
    ensures
        s.push(a).contains(x) == (s.contains(x) || a == x),
{
    if s.push(a).contains(x) {
        let i = choose|i: int| 0 <= i < s.push(a).len() && s.push(a)[i] == x;
        if i < s.len() {
            assert(s[i] == x);
        }
    }
    if s.contains(x) {
        let i = choose|i: int| 0 <= i < s.len() && s[i] == x;
        assert(s.push(a)[i] == x);
    }
    if a == x {
        assert(s.push(a)[s.len() as int] == x);
    }
}

/// One division's effect on a bill's links.
pub open spec fn step_links(links: Seq<Seq<char>>, is_last: bool, cited: bool, division_id: Seq<char>) -> Seq<Seq<char>> {
    if is_last && cited && !links.contains(division_id) {
        links.push(division_id)
    } else {
        links
    }
}

/// Each bill learns which divisions cite it.
pub fn link_bills(bills: &mut Vec<Bill>, divisions: &[Division])
    requires
        old(bills)@.len() <= i64::MAX,
    ensures
        final(bills)@.len() == old(bills)@.len(),
        forall|j: int|
            0 <= j < old(bills)@.len() ==> {
                &&& string_views((#[trigger] final(bills)@[j]).division_ids@) == linked(
                    string_views(old(bills)@[j].division_ids@),
                    old(bills)@[j].id@,
                    last_with_id(old(bills)@, j),
                    divisions@,
                )
                &&& bill_same_but_links(final(bills)@[j], old(bills)@[j])
            },
{
    let ghost orig = bills@;
    let pos = bill_positions(bills);
    let mut d: usize = 0;
    while d < divisions.len()
        invariant
            d <= divisions@.len(),
            bills@.len() == orig.len(),
            orig == old(bills)@,
            forall|id: Seq<char>|
                #![trigger entries_get(id_map_entries(pos), id)]
                match entries_get(id_map_entries(pos), id) {
                    Some(j) => 0 <= j < orig.len() && orig[j as int].id@ == id && last_with_id(orig, j as int),
                    None => forall|k: int| 0 <= k < orig.len() ==> (#[trigger] orig[k]).id@ != id,
                },
            forall|j: int|
                0 <= j < orig.len() ==> {
                    &&& string_views((#[trigger] bills@[j]).division_ids@) == linked(
                        string_views(orig[j].division_ids@),
                        orig[j].id@,
                        last_with_id(orig, j),
                        divisions@.take(d as int),
                    )
                    &&& bill_same_but_links(bills@[j], orig[j])
                },
        decreases divisions@.len() - d,
    {
        let div = &divisions[d];
        let ghost base = bills@;
        proof {
            assert(divisions@.take(d + 1).drop_last() =~= divisions@.take(d as int));
            assert(divisions@.take(d + 1).last() == divisions@[d as int]);
        }
        let mut k: usize = 0;
        while k < div.bill_ids.len()
            invariant
                k <= div.bill_ids@.len(),
                d < divisions@.len(),
                *div == divisions@[d as int],
                bills@.len() == orig.len(),
                base.len() == orig.len(),
                forall|id: Seq<char>|
                    #![trigger entries_get(id_map_entries(pos), id)]
                    match entries_get(id_map_entries(pos), id) {
                        Some(j) => 0 <= j < orig.len() && orig[j as int].id@ == id && last_with_id(orig, j as int),
                        None => forall|k: int| 0 <= k < orig.len() ==> (#[trigger] orig[k]).id@ != id,
                    },
                forall|j: int| 0 <= j < orig.len() ==> bill_same_but_links(#[trigger] base[j], orig[j]),
                forall|j: int|
                    0 <= j < orig.len() ==> {
                        &&& string_views((#[trigger] bills@[j]).division_ids@) == step_links(
                            string_views(base[j].division_ids@),
                            last_with_id(orig, j),
                            string_views(div.bill_ids@.take(k as int)).contains(orig[j].id@),
                            div.id@,
                        )
                        &&& bill_same_but_links(bills@[j], orig[j])
                    },
            decreases div.bill_ids@.len() - k,
        {
            let ghost cited = div.bill_ids@[k as int]@;
            proof {
                assert(string_views(div.bill_ids@.take(k + 1)) =~= string_views(div.bill_ids@.take(k as int)).push(cited));
            }
            let nb = bills.len();
            match id_map_get(&pos, div.bill_ids[k].as_str()) {
                Some(j) => {
                    proof {
                        assert(entries_get(id_map_entries(pos), div.bill_ids@[k as int]@) == Some(j));
                        assert(0 <= j < orig.len() && orig[j as int].id@ == cited && last_with_id(orig, j as int));
                        assert(j < nb);
                    }
                    let ju = j as usize;
                    assert(ju as int == j as int);
                    if !contains_text(&bills[ju].division_ids, div.id.as_str()) {
                        let ghost before = bills@;
                        let mut b = bills.remove(ju);
                        let ghost old_links = b.division_ids@;
                        b.division_ids.push(div.id.clone());
                        proof {
                            assert(string_views(b.division_ids@) =~= string_views(old_links).push(div.id@));
                        }
                        bills.insert(ju, b);
                        proof {
                            assert forall|m: int| 0 <= m < orig.len() implies string_views((#[trigger] bills@[m]).division_ids@) == step_links(
                                string_views(base[m].division_ids@),
                                last_with_id(orig, m),
                                string_views(div.bill_ids@.take(k + 1)).contains(orig[m].id@),
                                div.id@,
                            ) by {
                                lemma_contains_push(string_views(div.bill_ids@.take(k as int)), cited, orig[m].id@);
                                lemma_contains_push(string_views(base[m].division_ids@), div.id@, div.id@);
                                if m == ju {
                                    assert(string_views(div.bill_ids@.take(k + 1))[k as int] == cited);
                                    assert(bills@[m] == b);
                                } else {
                                    assert(bills@[m] == before[m]);
                                    if last_with_id(orig, m) {
                                        if orig[m].id@ == cited {
                                            if m < j {
                                                assert(orig[j as int].id@ == orig[m].id@);
                                                assert(!last_with_id(orig, m));
                                            } else {
                                                assert(orig[m].id@ != orig[j as int].id@);
                                            }
                                        }
                                    }
                                }
                            }
                            assert forall|m: int| 0 <= m < orig.len() && m != ju implies bills@[m] == before[m] by {}
                            assert forall|m: int| 0 <= m < orig.len() && m != ju && last_with_id(orig, m)
                                implies orig[m].id@ != cited by {
                                if orig[m].id@ == cited {
                                    if m < j {
                                        assert(orig[j as int].id@ == orig[m].id@);
                                        assert(!last_with_id(orig, m));
                                    } else {
                                        assert(j < m < orig.len());
                                        assert(orig[m].id@ != orig[j as int].id@);
                                    }
                                }
                            }
                        }
                    } else {
                        proof {
                            assert forall|m: int| 0 <= m < orig.len() implies string_views((#[trigger] bills@[m]).division_ids@) == step_links(
                                string_views(base[m].division_ids@),
                                last_with_id(orig, m),
                                string_views(div.bill_ids@.take(k + 1)).contains(orig[m].id@),
                                div.id@,
                            ) by {
                                lemma_contains_push(string_views(div.bill_ids@.take(k as int)), cited, orig[m].id@);
                                if m == ju {
                                    assert(string_views(div.bill_ids@.take(k + 1))[k as int] == cited);
                                } else if last_with_id(orig, m) && orig[m].id@ == cited {
                                    if m < j {
                                        assert(orig[j as int].id@ == orig[m].id@);
                                        assert(!last_with_id(orig, m));
                                    } else {
                                        assert(orig[m].id@ != orig[j as int].id@);
                                    }
                                }
                            }
                            assert forall|m: int| 0 <= m < orig.len() && m != ju && last_with_id(orig, m)
                                implies orig[m].id@ != cited by {
                                if orig[m].id@ == cited {
                                    if m < j {
                                        assert(orig[j as int].id@ == orig[m].id@);
                                        assert(!last_with_id(orig, m));
                                    } else {
                                        assert(j < m < orig.len());
                                        assert(orig[m].id@ != orig[j as int].id@);
                                    }
                                }
                            }
                        }
                    }
                },
                None => {
                    proof {
                        assert(entries_get(id_map_entries(pos), div.bill_ids@[k as int]@) is None);
                        assert forall|m: int| 0 <= m < orig.len() implies string_views((#[trigger] bills@[m]).division_ids@) == step_links(
                            string_views(base[m].division_ids@),
                            last_with_id(orig, m),
                            string_views(div.bill_ids@.take(k + 1)).contains(orig[m].id@),
                            div.id@,
                        ) by {
                            lemma_contains_push(string_views(div.bill_ids@.take(k as int)), cited, orig[m].id@);
                            assert(orig[m].id@ != cited);
                        }
                    }
                },
            }
            k = k + 1;
        }
        proof {
            assert(div.bill_ids@.take(div.bill_ids@.len() as int) =~= div.bill_ids@);
        }
        d = d + 1;
    }
    proof {
        assert(divisions@.take(divisions@.len() as int) =~= divisions@);
    }
}

/// Whether division `d` is one a bill's links take in.
pub open spec fn cites(bill_id: Seq<char>, is_last: bool, d: Division) -> bool {
    is_last && string_views(d.bill_ids@).contains(bill_id)
}

/// Linking keeps what was linked, and afterwards every citing division is linked.
proof fn lemma_linked_covers(acc: Seq<Seq<char>>, bill_id: Seq<char>, is_last: bool, divs: Seq<Division>)
    ensures
        forall|x: Seq<char>| acc.contains(x) ==> #[trigger] linked(acc, bill_id, is_last, divs).contains(x),
        forall|k: int|
            0 <= k < divs.len() && cites(bill_id, is_last, #[trigger] divs[k]) ==> linked(
                acc,
                bill_id,
                is_last,
                divs,
            ).contains(divs[k].id@),
    decreases divs.len(),
{
    if divs.len() > 0 {
        let rest = divs.drop_last();
        let d = divs.last();
        let prev = linked(acc, bill_id, is_last, rest);
        lemma_linked_covers(acc, bill_id, is_last, rest);
        assert forall|x: Seq<char>| prev.contains(x) implies #[trigger] linked(acc, bill_id, is_last, divs).contains(x) by {
            lemma_contains_push(prev, d.id@, x);
        }
        assert forall|k: int|
            0 <= k < divs.len() && cites(bill_id, is_last, #[trigger] divs[k]) implies linked(
                acc,
                bill_id,
                is_last,
                divs,
            ).contains(divs[k].id@) by {
            if k < rest.len() {
                assert(rest[k] == divs[k]);
                assert(prev.contains(divs[k].id@));
            } else {
                lemma_contains_push(prev, d.id@, d.id@);
            }
        }
    }
}

/// Links that already hold every citing division are left as they are.
proof fn lemma_linked_stable(links: Seq<Seq<char>>, bill_id: Seq<char>, is_last: bool, divs: Seq<Division>)
    requires
        forall|k: int| 0 <= k < divs.len() && cites(bill_id, is_last, #[trigger] divs[k]) ==> links.contains(divs[k].id@),
    ensures
        linked(links, bill_id, is_last, divs) == links,
    decreases divs.len(),
{
    if divs.len() > 0 {
        let rest = divs.drop_last();
        assert forall|k: int| 0 <= k < rest.len() && cites(bill_id, is_last, #[trigger] rest[k]) implies links.contains(
            rest[k].id@,
        ) by {
            assert(rest[k] == divs[k]);
        }
        lemma_linked_stable(links, bill_id, is_last, rest);
        assert(cites(bill_id, is_last, divs[divs.len() - 1]) ==> links.contains(divs.last().id@));
    }
}

/// Deriving again over the same divisions adds no link: a bill's links
/// after a second pass are those after the first.
pub proof fn law_link_bills_idempotent(links: Seq<Seq<char>>, bill_id: Seq<char>, is_last: bool, divs: Seq<Division>)
    ensures
        linked(linked(links, bill_id, is_last, divs), bill_id, is_last, divs) == linked(links, bill_id, is_last, divs),
{
    lemma_linked_covers(links, bill_id, is_last, divs);
    lemma_linked_stable(linked(links, bill_id, is_last, divs), bill_id, is_last, divs);
}

/// A bill never lists a division twice: links without repeats stay so.
pub proof fn law_bill_links_distinct(links: Seq<Seq<char>>, bill_id: Seq<char>, is_last: bool, divs: Seq<Division>)
    requires
        links.no_duplicates(),
    ensures
        linked(links, bill_id, is_last, divs).no_duplicates(),
    decreases divs.len(),
{
    if divs.len() > 0 {
        let rest = divs.drop_last();
        let d = divs.last();
        let prev = linked(links, bill_id, is_last, rest);
        law_bill_links_distinct(links, bill_id, is_last, rest);
        if cites(bill_id, is_last, d) && !prev.contains(d.id@) {
            let next = prev.push(d.id@);
            assert forall|i: int, j: int| 0 <= i < next.len() && 0 <= j < next.len() && i != j implies next[i]
                != next[j] by {
                if i < prev.len() && j < prev.len() {
                    assert(prev[i] != prev[j]);
                } else if i < prev.len() {
                    assert(prev.contains(prev[i]));
                } else {
                    assert(prev.contains(prev[j]));
                }
            }
        }
    }
}


// ---------------------------------------------------------------------------
// Parties
// ---------------------------------------------------------------------------

/// A party's reference data: display name, short code and colour.
#[derive(Debug, Clone)]
pub struct PartyReferenceEntry {
    pub name: Option<String>,
    pub code: Option<String>,
    pub colour: Option<String>,
}

/// The reference entry for a party slug: the first one keyed by it.
pub open spec fn reference_for(refs: Seq<(String, PartyReferenceEntry)>, slug: Seq<char>) -> Option<PartyReferenceEntry>
    decreases refs.len(),
{
    if refs.len() == 0 {
        None
    } else if refs[0].0@ == slug {
        Some(refs[0].1)
    } else {
        reference_for(refs.drop_first(), slug)
    }
}

/// The parliamentary groups, in the order their first member appears.
pub open spec fn group_order(people: Seq<Person>) -> Seq<Seq<char>>
    decreases people.len(),
{
    if people.len() == 0 {
        Seq::empty()
    } else {
        let prev = group_order(people.drop_last());
        let g = people.last().group_slug@;
        if prev.contains(g) {
            prev
        } else {
            prev.push(g)
        }
    }
}

/// The first member of a group, or -1.
pub open spec fn first_member(people: Seq<Person>, g: Seq<char>) -> int
    decreases people.len(),
{
    if people.len() == 0 {
        -1
    } else {
        let r = first_member(people.drop_last(), g);
        if r >= 0 {
            r
        } else if people.last().group_slug@ == g {
            people.len() - 1
        } else {
            -1
        }
    }
}

/// How many of a group's members sit in a chamber.
pub open spec fn seat_count(people: Seq<Person>, g: Seq<char>, house: House) -> nat
    decreases people.len(),
{
    if people.len() == 0 {
        0
    } else {
        seat_count(people.drop_last(), g, house) + if people.last().group_slug@ == g
            && people.last().house == house {
            1nat
        } else {
            0nat
        }
    }
}

pub open spec fn ref_text(o: Option<PartyReferenceEntry>, which: int) -> Option<Seq<char>> {
    match o {
        Some(e) => opt_view(if which == 0 {
            e.name
        } else if which == 1 {
            e.code
        } else {
            e.colour
        }),
        None => None,
    }
}

/// The party a group becomes: the reference's name (else the group name of
/// its first member), code and colour, and its members counted per chamber.
pub open spec fn party_of(people: Seq<Person>, refs: Seq<(String, PartyReferenceEntry)>, g: Seq<char>, p: Party) -> bool {
    let r = reference_for(refs, g);
    &&& p.slug@ == g
    &&& p.name@ == match ref_text(r, 0) {
        Some(n) => n,
        None => people[first_member(people, g)].group@,
    }
    &&& opt_view(p.code) == ref_text(r, 1)
    &&& opt_view(p.colour) == ref_text(r, 2)
    &&& p.seats == Some(
        PartySeats {
            representatives: seat_count(people, g, House::Representatives) as i64,
            senate: seat_count(people, g, House::Senate) as i64,
        },
    )
    &&& p.facts is None
}

fn reference_lookup(refs: &Vec<(String, PartyReferenceEntry)>, slug: &str) -> (r: Option<usize>)
    ensures
        match r {
            Some(i) => i < refs@.len() && reference_for(refs@, slug@) == Some(refs@[i as int].1),
            None => reference_for(refs@, slug@) is None,
        },
{
    let mut i: usize = 0;
    assert(refs@.skip(0) =~= refs@);
    while i < refs.len()
        invariant
            i <= refs@.len(),
            reference_for(refs@, slug@) == reference_for(refs@.skip(i as int), slug@),
        decreases refs@.len() - i,
    {
        proof {
            assert(refs@.skip(i as int).drop_first() =~= refs@.skip(i + 1));
            assert(refs@.skip(i as int)[0] == refs@[i as int]);
        }
        if str_eq(refs[i].0.as_str(), slug) {
            return Some(i);
        }
        i = i + 1;
    }
    None
}

fn copy_opt(o: &Option<String>) -> (r: Option<String>)
    ensures
        opt_view(r) == opt_view(*o),
{
    match o {
        Some(s) => Some(s.clone()),
        None => None,
    }
}

proof fn lemma_group_facts(people: Seq<Person>, g: Seq<char>)
    ensures
        group_order(people).contains(g) <==> first_member(people, g) >= 0,
        -1 <= first_member(people, g) < people.len(),
        first_member(people, g) >= 0 ==> people[first_member(people, g)].group_slug@ == g,
        seat_count(people, g, House::Representatives) + seat_count(people, g, House::Senate) <= people.len(),
        first_member(people, g) < 0 ==> seat_count(people, g, House::Representatives) == 0
            && seat_count(people, g, House::Senate) == 0,
        forall|a: int, b: int| 0 <= a < b < group_order(people).len() ==> group_order(people)[a] != group_order(people)[b],
    decreases people.len(),
{
    if people.len() > 0 {
        lemma_group_facts(people.drop_last(), g);
        let prev = group_order(people.drop_last());
        let x = people.last().group_slug@;
        if prev.contains(x) {
        } else {
            if prev.push(x).contains(g) {
                let i = choose|i: int| 0 <= i < prev.push(x).len() && prev.push(x)[i] == g;
                if i < prev.len() {
                    assert(prev[i] == g);
                }
            }
            if prev.contains(g) {
                let i = choose|i: int| 0 <= i < prev.len() && prev[i] == g;
                assert(prev.push(x)[i] == g);
            }
            if x == g {
                assert(prev.push(x)[prev.len() as int] == g);
            }
        }
    }
}

proof fn lemma_seat_count_is_members(people: Seq<Person>, g: Seq<char>, house: House)
    ensures
        seat_count(people, g, house) == people.filter(
            |q: Person| q.group_slug@ == g && q.house == house,
        ).len(),
    decreases people.len(),
{
    reveal_with_fuel(Seq::filter, 1);
    if people.len() > 0 {
        lemma_seat_count_is_members(people.drop_last(), g, house);
    }
}

/// A party's seats are its members counted per chamber: the representatives
/// are the people of its group who sit in the House of Representatives, the
/// senators those of its group who sit in the Senate.
pub proof fn law_party_seats_count_members(
    people: Seq<Person>,
    refs: Seq<(String, PartyReferenceEntry)>,
    g: Seq<char>,
    p: Party,
)
    requires
        party_of(people, refs, g, p),
    ensures
        p.slug@ == g,
        p.seats == Some(
            PartySeats {
                representatives: people.filter(
                    |q: Person| q.group_slug@ == g && q.house == House::Representatives,
                ).len() as i64,
                senate: people.filter(|q: Person| q.group_slug@ == g && q.house == House::Senate).len() as i64,
            },
        ),
{
    lemma_seat_count_is_members(people, g, House::Representatives);
    lemma_seat_count_is_members(people, g, House::Senate);
}

proof fn lemma_reference_for(refs: Seq<(String, PartyReferenceEntry)>, g: Seq<char>)
    ensures
        forall|i: int|
            0 <= i < refs.len() && (#[trigger] refs[i]).0@ == g && (forall|j: int| 0 <= j < i ==> refs[j].0@ != g)
                ==> reference_for(refs, g) == Some(refs[i].1),
        (forall|i: int| 0 <= i < refs.len() ==> (#[trigger] refs[i]).0@ != g) ==> reference_for(refs, g) is None,
    decreases refs.len(),
{
    if refs.len() > 0 {
        let rest = refs.drop_first();
        lemma_reference_for(rest, g);
        assert forall|i: int|
            0 <= i < refs.len() && (#[trigger] refs[i]).0@ == g && (forall|j: int| 0 <= j < i ==> refs[j].0@ != g)
            implies reference_for(refs, g) == Some(refs[i].1) by {
            if i > 0 {
                assert(refs[0].0@ != g);
                assert(rest[i - 1] == refs[i]);
                assert forall|j: int| 0 <= j < i - 1 implies rest[j].0@ != g by {
                    assert(rest[j] == refs[j + 1]);
                }
            }
        }
        if forall|i: int| 0 <= i < refs.len() ==> (#[trigger] refs[i]).0@ != g {
            assert(refs[0].0@ != g);
            assert forall|i: int| 0 <= i < rest.len() implies (#[trigger] rest[i]).0@ != g by {
                assert(rest[i] == refs[i + 1]);
            }
        }
    }
}

/// A party takes its name, code and colour from the first reference entry
/// keyed by its slug (its name only when the entry gives one); with no such
/// entry it has neither code nor colour.
pub proof fn law_party_follows_its_reference(
    people: Seq<Person>,
    refs: Seq<(String, PartyReferenceEntry)>,
    g: Seq<char>,
    p: Party,
)
    requires
        party_of(people, refs, g, p),
    ensures
        forall|i: int|
            0 <= i < refs.len() && (#[trigger] refs[i]).0@ == g && (forall|j: int| 0 <= j < i ==> refs[j].0@ != g)
                ==> {
                &&& opt_view(p.code) == opt_view(refs[i].1.code)
                &&& opt_view(p.colour) == opt_view(refs[i].1.colour)
                &&& refs[i].1.name is Some ==> p.name@ == refs[i].1.name.unwrap()@
            },
        (forall|i: int| 0 <= i < refs.len() ==> (#[trigger] refs[i]).0@ != g) ==> p.code is None
            && p.colour is None,
{
    lemma_reference_for(refs, g);
}

/// Groups become parties, in first-member order, each with its members
/// counted per chamber.
pub fn build_parties(people: &[Person], reference: &Vec<(String, PartyReferenceEntry)>) -> (r: Vec<Party>)
    requires
        people@.len() <= i64::MAX,
    ensures
        r@.len() == group_order(people@).len(),
        forall|k: int| 0 <= k < r@.len() ==> party_of(people@, reference@, group_order(people@)[k], #[trigger] r@[k]),
{
    let mut parties: Vec<Party> = Vec::new();
    let mut slugs: Vec<String> = Vec::new();
    let mut i: usize = 0;
    while i < people.len()
        invariant
            i <= people@.len() <= i64::MAX,
            parties@.len() == slugs@.len() == group_order(people@.take(i as int)).len(),
            forall|k: int| 0 <= k < slugs@.len() ==> (#[trigger] slugs@[k])@ == group_order(people@.take(i as int))[k],
            forall|k: int|
                0 <= k < parties@.len() ==> party_of(
                    people@.take(i as int),
                    reference@,
                    group_order(people@.take(i as int))[k],
                    #[trigger] parties@[k],
                ),
        decreases people@.len() - i,
    {
        let p = &people[i];
        let ghost pre = people@.take(i as int);
        let ghost post = people@.take(i + 1);
        let ghost g = p.group_slug@;
        proof {
            assert(post.drop_last() =~= pre);
            assert(post.last() == people@[i as int]);
            lemma_group_facts(pre, g);
        }
        let mut found: Option<usize> = None;
        let mut k: usize = 0;
        while k < slugs.len()
            invariant
                k <= slugs@.len(),
                forall|m: int| 0 <= m < slugs@.len() ==> (#[trigger] slugs@[m])@ == group_order(pre)[m],
                slugs@.len() == group_order(pre).len(),
                p.group_slug@ == g,
                match found {
                    Some(f) => f < slugs@.len() && group_order(pre)[f as int] == g,
                    None => forall|m: int| 0 <= m < k ==> group_order(pre)[m] != g,
                },
            decreases slugs@.len() - k,
        {
            if found.is_none() && str_eq(slugs[k].as_str(), p.group_slug.as_str()) {
                found = Some(k);
            }
            k = k + 1;
        }
        let idx = match found {
            Some(f) => f,
            None => {
                proof {
                    assert(!group_order(pre).contains(g));
                }
                let r = reference_lookup(reference, p.group_slug.as_str());
                let (name, code, colour) = match r {
                    Some(ri) => {
                        let e = &reference[ri].1;
                        (
                            match &e.name {
                                Some(n) => n.clone(),
                                None => p.group.clone(),
                            },
                            copy_opt(&e.code),
                            copy_opt(&e.colour),
                        )
                    },
                    None => (p.group.clone(), None, None),
                };
                parties.push(
                    Party {
                        slug: p.group_slug.clone(),
                        name,
                        code,
                        colour,
                        seats: Some(PartySeats { representatives: 0, senate: 0 }),
                        facts: None,
                    },
                );
                slugs.push(p.group_slug.clone());
                parties.len() - 1
            },
        };
        let ghost before = parties@;
        let mut party = parties.remove(idx);
        let seats = match party.seats {
            Some(s) => s,
            None => PartySeats { representatives: 0, senate: 0 },
        };
        proof {
            lemma_group_facts(post, g);
        }
        let next = match p.house {
            House::Representatives => PartySeats { representatives: seats.representatives + 1, senate: seats.senate },
            House::Senate => PartySeats { representatives: seats.representatives, senate: seats.senate + 1 },
        };
        party.seats = Some(next);
        parties.insert(idx, party);
        proof {
            let gp = group_order(pre);
            let gq = group_order(post);
            lemma_group_facts(pre, g);
            lemma_group_facts(post, g);
            if gp.contains(g) {
                assert(gq == gp);
            } else {
                assert(gq == gp.push(g));
            }
            assert forall|m: int| 0 <= m < parties@.len() implies party_of(post, reference@, gq[m], #[trigger] parties@[m]) by {
                let gm = gq[m];
                lemma_group_facts(pre, gm);
                lemma_group_facts(post, gm);
                if m != idx {
                    assert(parties@[m] == before[m]);
                    assert(gm == gp[m]);
                    if gp.contains(g) {
                        assert(gp[idx as int] == g);
                    } else {
                        assert(gq[idx as int] == g);
                    }
                    assert(gm != g);
                    assert(first_member(post, gm) == first_member(pre, gm));
                } else {
                    assert(gm == g);
                }
            }
        }
        i = i + 1;
    }
    proof {
        assert(people@.take(people@.len() as int) =~= people@);
    }
    parties
}

/// A slug read back as a title: hyphens as spaces, each word's first
/// lower-case letter capitalised; empty for no slug.
pub open spec fn title_of_slug(slug: Option<Seq<char>>) -> Seq<char> {
    match slug {
        Some(s) => capitalise_after_breaks(crate::text::replace_char_seq(s, '-', ' ')),
        None => Seq::empty(),
    }
}

/// A letter is at a word boundary when it is first or follows a character
/// that is not alphanumeric.
pub open spec fn capitalise_after_breaks(s: Seq<char>) -> Seq<char>
    decreases s.len(),
{
    if s.len() == 0 {
        s
    } else {
        let prev = capitalise_after_breaks(s.drop_last());
        let c = s.last();
        let boundary = s.len() == 1 || !crate::text::is_alphanumeric(s[s.len() - 2]);
        prev.push(if boundary && crate::text::is_ascii_lower(c) {
            crate::text::upper_ascii(c)
        } else {
            c
        })
    }
}


pub fn title_from_slug(slug: Option<&str>) -> (r: String)
    ensures
        r@ == title_of_slug(crate::text::opt_str_view(slug)),
{
    let slug = match slug {
        Some(s) => s,
        None => {
            proof {
                reveal_strlit("");
            }
            return owned("");
        },
    };
    let spaced = crate::text::replace_char(slug, '-', ' ');
    let v = chars_of(spaced.as_str());
    let mut out: Vec<char> = Vec::new();
    let mut at_boundary = true;
    let mut i: usize = 0;
    while i < v.len()
        invariant
            i <= v@.len(),
            out@ == capitalise_after_breaks(v@.take(i as int)),
            at_boundary == (i == 0 || !crate::text::is_alphanumeric(v@[i - 1])),
        decreases v@.len() - i,
    {
        proof {
            assert(v@.take(i + 1).drop_last() =~= v@.take(i as int));
            if i >= 1 {
                assert(v@.take(i + 1)[i - 1] == v@[i - 1]);
            }
        }
        let c = v[i];
        if at_boundary && 'a' <= c && c <= 'z' {
            out.push(crate::text::to_upper_ascii(c));
        } else {
            out.push(c);
        }
        at_boundary = !crate::text::alphanumeric(c);
        i = i + 1;
    }
    proof {
        assert(v@.take(v@.len() as int) =~= v@);
    }
    string_of(&out)
}


// ---------------------------------------------------------------------------
// People and their seats
// ---------------------------------------------------------------------------

/// Position of the last electorate with the slug, or -1.
pub open spec fn last_electorate(es: Seq<crate::schema::Electorate>, slug: Seq<char>) -> int
    decreases es.len(),
{
    if es.len() == 0 {
        -1
    } else if es.last().slug@ == slug {
        es.len() - 1
    } else {
        last_electorate(es.drop_last(), slug)
    }
}

/// Position of the last person seated in the electorate, or -1.
pub open spec fn last_seated(people: Seq<Person>, slug: Seq<char>) -> int
    decreases people.len(),
{
    if people.len() == 0 {
        -1
    } else if opt_view(people.last().electorate) == Some(slug) {
        people.len() - 1
    } else {
        last_seated(people.drop_last(), slug)
    }
}

proof fn lemma_last_electorate(es: Seq<crate::schema::Electorate>, slug: Seq<char>)
    ensures
        -1 <= last_electorate(es, slug) < es.len(),
        last_electorate(es, slug) >= 0 ==> es[last_electorate(es, slug)].slug@ == slug,
        last_electorate(es, slug) < 0 ==> forall|k: int| 0 <= k < es.len() ==> (#[trigger] es[k]).slug@ != slug,
        forall|k: int| last_electorate(es, slug) < k < es.len() ==> (#[trigger] es[k]).slug@ != slug,
    decreases es.len(),
{
    if es.len() > 0 {
        lemma_last_electorate(es.drop_last(), slug);
        assert forall|k: int| 0 <= k < es.len() - 1 implies es[k] == es.drop_last()[k] by {}
    }
}

proof fn lemma_last_seated(people: Seq<Person>, slug: Seq<char>)
    ensures
        -1 <= last_seated(people, slug) < people.len(),
        last_seated(people, slug) >= 0 ==> opt_view(people[last_seated(people, slug)].electorate) == Some(slug),
    decreases people.len(),
{
    if people.len() > 0 {
        lemma_last_seated(people.drop_last(), slug);
    }
}

/// A person's state once linked to their electorate.
pub open spec fn linked_state(p: Person, es: Seq<crate::schema::Electorate>) -> Option<crate::schema::StateCode> {
    match opt_view(p.electorate) {
        Some(s) => if last_electorate(es, s) >= 0 {
            Some(es[last_electorate(es, s)].state)
        } else {
            p.state
        },
        None => p.state,
    }
}

/// An electorate's member once linked: the last person seated there.
pub open spec fn linked_member(e: int, es: Seq<crate::schema::Electorate>, people: Seq<Person>) -> Option<Seq<char>> {
    let slug = es[e].slug@;
    if last_electorate(es, slug) == e && last_seated(people, slug) >= 0 {
        Some(people[last_seated(people, slug)].slug@)
    } else {
        opt_view(es[e].member_slug)
    }
}

fn electorate_positions(es: &Vec<crate::schema::Electorate>) -> (r: indexmap::IndexMap<String, i64>)
    requires
        es@.len() <= i64::MAX,
    ensures
        forall|slug: Seq<char>|
            #![trigger entries_get(id_map_entries(r), slug)]
            match entries_get(id_map_entries(r), slug) {
                Some(j) => j == last_electorate(es@, slug) && 0 <= j < es@.len(),
                None => last_electorate(es@, slug) == -1,
            },
{
    let mut m = id_map_new();
    let mut i: usize = 0;
    while i < es.len()
        invariant
            i <= es@.len() <= i64::MAX,
            keys_distinct(id_map_entries(m)),
            forall|slug: Seq<char>|
                #![trigger entries_get(id_map_entries(m), slug)]
                match entries_get(id_map_entries(m), slug) {
                    Some(j) => j == last_electorate(es@.take(i as int), slug) && 0 <= j < i,
                    None => last_electorate(es@.take(i as int), slug) == -1,
                },
        decreases es@.len() - i,
    {
        proof {
            let e = id_map_entries(m);
            let s0 = es@[i as int].slug@;
            assert(es@.take(i + 1).drop_last() =~= es@.take(i as int));
            assert(es@.take(i + 1).last() == es@[i as int]);
            assert forall|slug: Seq<char>|
                #![trigger entries_get(crate::collections::entries_insert(e, s0, i as i64), slug)]
                match entries_get(crate::collections::entries_insert(e, s0, i as i64), slug) {
                    Some(j) => j == last_electorate(es@.take(i + 1), slug) && 0 <= j < i + 1,
                    None => last_electorate(es@.take(i + 1), slug) == -1,
                } by {
                law_insert_then_get(e, s0, i as i64, slug);
                assert(entries_get(e, slug) == entries_get(id_map_entries(m), slug));
            }
            law_insert_then_get(e, s0, i as i64, Seq::empty());
        }
        id_map_insert(&mut m, es[i].slug.clone(), i as i64);
        i = i + 1;
    }
    proof {
        assert(es@.take(es@.len() as int) =~= es@);
    }
    m
}


/// Each person takes their electorate's state, and each electorate the last
/// person seated in it as its member.
#[verifier::spinoff_prover]
pub fn link_electorates(people: &mut Vec<Person>, electorates: &mut Vec<crate::schema::Electorate>)
    requires
        old(electorates)@.len() <= i64::MAX,
    ensures
        final(people)@.len() == old(people)@.len(),
        final(electorates)@.len() == old(electorates)@.len(),
        forall|i: int|
            0 <= i < old(people)@.len() ==> {
                &&& (#[trigger] final(people)@[i]).state == linked_state(old(people)@[i], old(electorates)@)
                &&& final(people)@[i] == (Person { state: final(people)@[i].state, ..old(people)@[i] })
            },
        forall|e: int|
            0 <= e < old(electorates)@.len() ==> {
                &&& opt_view((#[trigger] final(electorates)@[e]).member_slug) == linked_member(e, old(electorates)@, old(people)@)
                &&& final(electorates)@[e] == (crate::schema::Electorate {
                    member_slug: final(electorates)@[e].member_slug,
                    ..old(electorates)@[e]
                })
            },
{
    let ghost es = electorates@;
    let ghost ps = people@;
    let pos = electorate_positions(electorates);
    let mut i: usize = 0;
    while i < people.len()
        invariant
            i <= people@.len(),
            people@.len() == ps.len(),
            electorates@.len() == es.len(),
            ps == old(people)@,
            es == old(electorates)@,
            forall|slug: Seq<char>|
                #![trigger entries_get(id_map_entries(pos), slug)]
                match entries_get(id_map_entries(pos), slug) {
                    Some(j) => j == last_electorate(es, slug) && 0 <= j < es.len(),
                    None => last_electorate(es, slug) == -1,
                },
            forall|j: int| i <= j < people@.len() ==> people@[j] == ps[j],
            forall|j: int|
                0 <= j < i ==> {
                    &&& (#[trigger] people@[j]).state == linked_state(ps[j], es)
                    &&& people@[j] == (Person { state: people@[j].state, ..ps[j] })
                },
            forall|e: int|
                0 <= e < es.len() ==> {
                    &&& opt_view((#[trigger] electorates@[e]).member_slug) == linked_member(e, es, ps.take(i as int))
                    &&& electorates@[e] == (crate::schema::Electorate { member_slug: electorates@[e].member_slug, ..es[e] })
                },
        decreases people@.len() - i,
    {
        let ghost pre = ps.take(i as int);
        let ghost post = ps.take(i + 1);
        proof {
            assert(post.drop_last() =~= pre);
            assert(post.last() == ps[i as int]);
        }
        let found = match &people[i].electorate {
            Some(slug) => id_map_get(&pos, slug.as_str()),
            None => None,
        };
        let ne = electorates.len();
        match found {
            Some(j) => {
                proof {
                    let s = ps[i as int].electorate.unwrap()@;
                    assert(entries_get(id_map_entries(pos), s) == Some(j));
                    assert(j == last_electorate(es, s) && 0 <= j < es.len());
                    assert(j < ne);
                }
                let ju = j as usize;
                assert(ju as int == j as int);
                let st = electorates[ju].state;
                let ghost before_e = electorates@;
                let ghost before_p = people@;
                let mut p = people.remove(i);
                p.state = Some(st);
                let member = p.slug.clone();
                people.insert(i, p);
                proof {
                    assert forall|m: int| 0 <= m < people@.len() && m != i implies people@[m] == before_p[m] by {}
                    assert(people@[i as int].state == linked_state(ps[i as int], es));
                    assert(people@[i as int] == (Person { state: people@[i as int].state, ..ps[i as int] }));
                    assert forall|m: int| 0 <= m < i implies people@[m] == (Person { state: people@[m].state, ..ps[m] }) by {
                        assert(people@[m] == before_p[m]);
                    }
                }
                let mut e = electorates.remove(ju);
                e.member_slug = Some(member);
                electorates.insert(ju, e);
                proof {
                    let s = ps[i as int].electorate.unwrap()@;
                    lemma_last_electorate(es, s);
                    assert forall|k: int| 0 <= k < es.len() implies opt_view((#[trigger] electorates@[k]).member_slug) == linked_member(k, es, post) by {
                        lemma_last_seated(pre, es[k].slug@);
                        lemma_last_electorate(es, es[k].slug@);
                        if k != ju {
                            assert(electorates@[k] == before_e[k]);
                            if es[k].slug@ == s {
                                assert(last_electorate(es, s) == j);
                                assert(last_electorate(es, es[k].slug@) != k);
                            }
                        }
                    }
                }
            },
            None => {
                proof {
                    match ps[i as int].electorate {
                        Some(sl) => {
                            assert(entries_get(id_map_entries(pos), sl@) is None);
                            assert(last_electorate(es, sl@) == -1);
                        },
                        None => {},
                    }
                    assert(people@[i as int].state == linked_state(ps[i as int], es));
                    assert forall|k: int| 0 <= k < es.len() implies opt_view((#[trigger] electorates@[k]).member_slug) == linked_member(k, es, post) by {
                        lemma_last_electorate(es, es[k].slug@);
                        lemma_last_seated(pre, es[k].slug@);
                        match ps[i as int].electorate {
                            Some(sl) => {
                                assert(entries_get(id_map_entries(pos), sl@) is None);
                                if sl@ == es[k].slug@ {
                                    assert(es[k].slug@ != sl@);
                                }
                            },
                            None => {},
                        }
                    }
                }
            },
        }
        i = i + 1;
    }
    proof {
        assert(ps.take(ps.len() as int) =~= ps);
    }
}


// ---------------------------------------------------------------------------
// The machine-written layers and the stored side records
// ---------------------------------------------------------------------------

pub open spec fn ai_text_of(text: String, model: String, generated_at: String, t: crate::schema::AiText) -> bool {
    t.text@ == text@ && t.model@ == model@ && t.generated_at@ == generated_at@
}

/// A division's summary kind and, for a transcript, its stored AI summary.
pub open spec fn classified(d: Division, names: Seq<Seq<char>>, ai: Option<crate::summarise::AiSummary>, after: Division) -> bool {
    &&& after == (Division { summary_kind: after.summary_kind, ai_summary: after.ai_summary, ..d })
    &&& match d.summary {
        Some(s) => {
            let transcript = crate::summarise::transcript_like(s@, names);
            &&& after.summary_kind == Some(
                if transcript {
                    crate::schema::SummaryKind::Transcript
                } else {
                    crate::schema::SummaryKind::Summary
                },
            )
            &&& match (transcript, ai) {
                (true, Some(a)) => after.ai_summary is Some && ai_text_of(a.text, a.model, a.generated_at, after.ai_summary.unwrap()),
                _ => after.ai_summary == d.ai_summary,
            }
        },
        None => after.summary_kind == d.summary_kind && after.ai_summary == d.ai_summary,
    }
}

/// Each division with a summary is marked as written context or as a
/// transcript; a transcript takes its stored AI summary, when there is one.
/// `ai[i]` is what is stored for division `i`.
pub fn classify_summaries(
    divisions: &mut Vec<Division>,
    member_names: &Vec<String>,
    ai: Vec<Option<crate::summarise::AiSummary>>,
)
    requires
        ai@.len() == old(divisions)@.len(),
    ensures
        final(divisions)@.len() == old(divisions)@.len(),
        forall|i: int|
            0 <= i < old(divisions)@.len() ==> classified(
                old(divisions)@[i],
                crate::text::string_views(member_names@),
                ai@[i],
                #[trigger] final(divisions)@[i],
            ),
{
    let ghost orig = divisions@;
    let ghost ai0 = ai@;
    let mut ai = ai;
    let n = divisions.len();
    let mut i: usize = 0;
    while i < n
        invariant
            i <= n == divisions@.len() == orig.len() == ai@.len(),
            orig == old(divisions)@,
            ai0.len() == n,
            forall|j: int| i <= j < n ==> ai@[j] == ai0[j],
            forall|j: int| i <= j < n ==> divisions@[j] == orig[j],
            forall|j: int| 0 <= j < i ==> classified(orig[j], crate::text::string_views(member_names@), ai0[j], #[trigger] divisions@[j]),
        decreases n - i,
    {
        let stored = ai.remove(i);
        ai.insert(i, None);
        let ghost before = divisions@;
        let mut d = divisions.remove(i);
        let transcript = match &d.summary {
            Some(s) => Some(crate::summarise::is_transcript(s.as_str(), member_names)),
            None => None,
        };
        match transcript {
            Some(t) => {
                d.summary_kind = Some(
                    if t {
                        crate::schema::SummaryKind::Transcript
                    } else {
                        crate::schema::SummaryKind::Summary
                    },
                );
                if t {
                    match stored {
                        Some(a) => {
                            d.ai_summary = Some(crate::schema::AiText { text: a.text, model: a.model, generated_at: a.generated_at });
                        },
                        None => {},
                    }
                }
            },
            None => {},
        }
        divisions.insert(i, d);
        proof {
            assert forall|j: int| 0 <= j < n && j != i implies divisions@[j] == before[j] by {}
        }
        i = i + 1;
    }
}

/// A person's stored AI note and Handbook record folded in: the background
/// always, the positions when there are any.
pub open spec fn with_records(p: Person, note: Option<crate::summarise::AiPersonNote>, profile: Option<crate::handbook::HandbookProfile>, after: Person) -> bool {
    &&& after == (Person { ai_note: after.ai_note, background: after.background, positions: after.positions, ..p })
    &&& match note {
        Some(n) => after.ai_note is Some && ai_text_of(n.text, n.model, n.generated_at, after.ai_note.unwrap()),
        None => after.ai_note == p.ai_note,
    }
    &&& match profile {
        Some(h) => after.background == Some(h.background) && after.positions == if h.positions@.len() > 0 {
            Some(h.positions)
        } else {
            p.positions
        },
        None => after.background == p.background && after.positions == p.positions,
    }
}

pub fn attach_person_records(
    people: &mut Vec<Person>,
    notes: Vec<Option<crate::summarise::AiPersonNote>>,
    profiles: Vec<Option<crate::handbook::HandbookProfile>>,
)
    requires
        notes@.len() == old(people)@.len(),
        profiles@.len() == old(people)@.len(),
    ensures
        final(people)@.len() == old(people)@.len(),
        forall|i: int| 0 <= i < old(people)@.len() ==> with_records(old(people)@[i], notes@[i], profiles@[i], #[trigger] final(people)@[i]),
{
    let ghost orig = people@;
    let ghost n0 = notes@;
    let ghost h0 = profiles@;
    let mut notes = notes;
    let mut profiles = profiles;
    let n = people.len();
    let mut i: usize = 0;
    while i < n
        invariant
            i <= n == people@.len() == orig.len() == notes@.len() == profiles@.len(),
            orig == old(people)@,
            n0.len() == n && h0.len() == n,
            forall|j: int| i <= j < n ==> notes@[j] == n0[j] && profiles@[j] == h0[j] && people@[j] == orig[j],
            forall|j: int| 0 <= j < i ==> with_records(orig[j], n0[j], h0[j], #[trigger] people@[j]),
        decreases n - i,
    {
        let note = notes.remove(i);
        notes.insert(i, None);
        let profile = profiles.remove(i);
        profiles.insert(i, None);
        let ghost before = people@;
        let mut p = people.remove(i);
        match note {
            Some(nt) => {
                p.ai_note = Some(crate::schema::AiText { text: nt.text, model: nt.model, generated_at: nt.generated_at });
            },
            None => {},
        }
        match profile {
            Some(h) => {
                p.background = Some(h.background);
                if h.positions.len() > 0 {
                    p.positions = Some(h.positions);
                }
            },
            None => {},
        }
        people.insert(i, p);
        proof {
            assert forall|j: int| 0 <= j < n && j != i implies people@[j] == before[j] by {}
        }
        i = i + 1;
    }
}

/// A slug for a bill's raiser: the sitting member with the raiser's Handbook
/// id (compared without case), else the slug of the raiser's name when a
/// sitting member has it.
pub open spec fn raiser_slug(people: Seq<Person>, r: crate::schema::BillRaiser) -> Option<Seq<char>> {
    let by_phid = match r.phid {
        Some(ph) => phid_slug(people, crate::text::lowercase_of(ph@)),
        None => None,
    };
    match by_phid {
        Some(s) => Some(s),
        None => {
            let s = slugify_spec(r.name@);
            if text_views_people(people).contains(s) {
                Some(s)
            } else {
                None
            }
        },
    }
}

pub open spec fn text_views_people(people: Seq<Person>) -> Seq<Seq<char>> {
    people.map_values(|p: Person| p.slug@)
}

/// The slug of the last person whose lower-cased Handbook id is `key`.
pub open spec fn phid_slug(people: Seq<Person>, key: Seq<char>) -> Option<Seq<char>>
    decreases people.len(),
{
    if people.len() == 0 {
        None
    } else {
        match people.last().ids.aph {
            Some(a) => if crate::text::lowercase_of(a@) == key {
                Some(people.last().slug@)
            } else {
                phid_slug(people.drop_last(), key)
            },
            None => phid_slug(people.drop_last(), key),
        }
    }
}

pub open spec fn raisers_linked(people: Seq<Person>, before: Seq<crate::schema::BillRaiser>, after: Seq<crate::schema::BillRaiser>) -> bool {
    &&& after.len() == before.len()
    &&& forall|k: int|
        0 <= k < before.len() ==> {
            &&& opt_view((#[trigger] after[k]).slug) == raiser_slug(people, before[k])
            &&& after[k].name == before[k].name
            &&& after[k].phid == before[k].phid
        }
}

/// A bill's stored note folded in (an empty note is the model's judgement
/// that the summary is plain enough, and adds nothing), and its raisers
/// linked to sitting members.
pub open spec fn bill_linked(b: Bill, note: Option<crate::summarise::AiSummary>, people: Seq<Person>, after: Bill) -> bool {
    &&& after == (Bill { ai_summary: after.ai_summary, sponsors: after.sponsors, movers: after.movers, ..b })
    &&& match note {
        Some(n) => if n.text@.len() > 0 {
            after.ai_summary is Some && ai_text_of(n.text, n.model, n.generated_at, after.ai_summary.unwrap())
        } else {
            after.ai_summary == b.ai_summary
        },
        None => after.ai_summary == b.ai_summary,
    }
    &&& raisers_linked(people, b.sponsors@, after.sponsors@)
    &&& raisers_linked(people, b.movers@, after.movers@)
}

fn person_slug_lookup(people: &[Person], lowered_phid: &str, name_slug: &str) -> (r: (Option<String>, bool))
    ensures
        opt_view(r.0) == phid_slug(people@, lowered_phid@),
        r.1 == text_views_people(people@).contains(name_slug@),
{
    let mut found: Option<String> = None;
    let mut named = false;
    let mut i: usize = 0;
    while i < people.len()
        invariant
            i <= people@.len(),
            opt_view(found) == phid_slug(people@.take(i as int), lowered_phid@),
            named == text_views_people(people@.take(i as int)).contains(name_slug@),
        decreases people@.len() - i,
    {
        let p = &people[i];
        proof {
            assert(people@.take(i + 1).drop_last() =~= people@.take(i as int));
            assert(people@.take(i + 1).last() == people@[i as int]);
            assert(text_views_people(people@.take(i + 1)) =~= text_views_people(people@.take(i as int)).push(p.slug@));
            lemma_contains_push(text_views_people(people@.take(i as int)), p.slug@, name_slug@);
        }
        match &p.ids.aph {
            Some(a) => {
                let lowered = crate::text::to_lower(a.as_str());
                if str_eq(lowered.as_str(), lowered_phid) {
                    found = Some(p.slug.clone());
                }
            },
            None => {},
        }
        if str_eq(p.slug.as_str(), name_slug) {
            named = true;
        }
        i = i + 1;
    }
    proof {
        assert(people@.take(people@.len() as int) =~= people@);
    }
    (found, named)
}

fn link_raiser_list(list: Vec<crate::schema::BillRaiser>, people: &[Person]) -> (r: Vec<crate::schema::BillRaiser>)
    ensures
        raisers_linked(people@, list@, r@),
{
    let ghost orig = list@;
    let mut list = list;
    let n = list.len();
    let mut k: usize = 0;
    while k < n
        invariant
            k <= n == list@.len() == orig.len(),
            forall|j: int| k <= j < n ==> list@[j] == orig[j],
            forall|j: int|
                0 <= j < k ==> {
                    &&& opt_view((#[trigger] list@[j]).slug) == raiser_slug(people@, orig[j])
                    &&& list@[j].name == orig[j].name
                    &&& list@[j].phid == orig[j].phid
                },
        decreases n - k,
    {
        let ghost before = list@;
        let mut r = list.remove(k);
        let name_slug = slugify(r.name.as_str());
        let lowered = match &r.phid {
            Some(ph) => crate::text::to_lower(ph.as_str()),
            None => owned(""),
        };
        let (by_phid, named) = person_slug_lookup(people, lowered.as_str(), name_slug.as_str());
        let by_phid = match &r.phid {
            Some(_) => by_phid,
            None => None,
        };
        r.slug = match by_phid {
            Some(sl) => Some(sl),
            None => if named {
                Some(name_slug)
            } else {
                None
            },
        };
        list.insert(k, r);
        proof {
            assert forall|j: int| 0 <= j < n && j != k implies list@[j] == before[j] by {}
        }
        k = k + 1;
    }
    list
}

pub fn link_bill_records(bills: &mut Vec<Bill>, notes: Vec<Option<crate::summarise::AiSummary>>, people: &[Person])
    requires
        notes@.len() == old(bills)@.len(),
    ensures
        final(bills)@.len() == old(bills)@.len(),
        forall|i: int| 0 <= i < old(bills)@.len() ==> bill_linked(old(bills)@[i], notes@[i], people@, #[trigger] final(bills)@[i]),
{
    let ghost orig = bills@;
    let ghost n0 = notes@;
    let mut notes = notes;
    let n = bills.len();
    let mut i: usize = 0;
    while i < n
        invariant
            i <= n == bills@.len() == orig.len() == notes@.len(),
            orig == old(bills)@,
            n0.len() == n,
            forall|j: int| i <= j < n ==> notes@[j] == n0[j] && bills@[j] == orig[j],
            forall|j: int| 0 <= j < i ==> bill_linked(orig[j], n0[j], people@, #[trigger] bills@[j]),
        decreases n - i,
    {
        let note = notes.remove(i);
        notes.insert(i, None);
        let ghost before = bills@;
        let mut b = bills.remove(i);
        match note {
            Some(nt) => {
                if nt.text.as_str().unicode_len() > 0 {
                    b.ai_summary = Some(crate::schema::AiText { text: nt.text, model: nt.model, generated_at: nt.generated_at });
                }
            },
            None => {},
        }
        let mut sponsors: Vec<crate::schema::BillRaiser> = Vec::new();
        std::mem::swap(&mut sponsors, &mut b.sponsors);
        b.sponsors = link_raiser_list(sponsors, people);
        let mut movers: Vec<crate::schema::BillRaiser> = Vec::new();
        std::mem::swap(&mut movers, &mut b.movers);
        b.movers = link_raiser_list(movers, people);
        bills.insert(i, b);
        proof {
            assert forall|j: int| 0 <= j < n && j != i implies bills@[j] == before[j] by {}
        }
        i = i + 1;
    }
}

/// An electorate's stored profile folded in, with its enrolment figure.
pub fn attach_profiles(electorates: &mut Vec<crate::schema::Electorate>, profiles: Vec<Option<crate::aec_profiles::ElectorateProfile>>)
    requires
        profiles@.len() == old(electorates)@.len(),
    ensures
        final(electorates)@.len() == old(electorates)@.len(),
        forall|i: int|
            0 <= i < old(electorates)@.len() ==> {
                let before = old(electorates)@[i];
                let after = #[trigger] final(electorates)@[i];
                &&& after.slug == before.slug && after.name == before.name && after.state == before.state
                &&& after.member_slug == before.member_slug
                &&& match profiles@[i] {
                    Some(p) => after.profile == Some(p.profile) && after.enrolment == p.enrolment,
                    None => after.profile == before.profile && after.enrolment == before.enrolment,
                }
            },
{
    let ghost orig = electorates@;
    let ghost p0 = profiles@;
    let mut profiles = profiles;
    let n = electorates.len();
    let mut i: usize = 0;
    while i < n
        invariant
            i <= n == electorates@.len() == orig.len() == profiles@.len(),
            orig == old(electorates)@,
            p0.len() == n,
            forall|j: int| i <= j < n ==> profiles@[j] == p0[j] && electorates@[j] == orig[j],
            forall|j: int|
                0 <= j < i ==> {
                    let before = orig[j];
                    let after = #[trigger] electorates@[j];
                    &&& after.slug == before.slug && after.name == before.name && after.state == before.state
                    &&& after.member_slug == before.member_slug
                    &&& match p0[j] {
                        Some(p) => after.profile == Some(p.profile) && after.enrolment == p.enrolment,
                        None => after.profile == before.profile && after.enrolment == before.enrolment,
                    }
                },
        decreases n - i,
    {
        let profile = profiles.remove(i);
        profiles.insert(i, None);
        let ghost before = electorates@;
        let mut e = electorates.remove(i);
        match profile {
            Some(p) => {
                e.profile = Some(p.profile);
                e.enrolment = p.enrolment;
            },
            None => {},
        }
        electorates.insert(i, e);
        proof {
            assert forall|j: int| 0 <= j < n && j != i implies electorates@[j] == before[j] by {}
        }
        i = i + 1;
    }
}

/// Each party's stored facts, by slug, folded in.
pub fn attach_party_facts(parties: &mut Vec<Party>, facts: Vec<Option<crate::schema::PartyFacts>>)
    requires
        facts@.len() == old(parties)@.len(),
    ensures
        final(parties)@.len() == old(parties)@.len(),
        forall|i: int|
            0 <= i < old(parties)@.len() ==> {
                let before = old(parties)@[i];
                let after = #[trigger] final(parties)@[i];
                &&& after.slug == before.slug && after.name == before.name && after.code == before.code
                &&& after.colour == before.colour && after.seats == before.seats
                &&& after.facts == match facts@[i] {
                    Some(f) => Some(f),
                    None => before.facts,
                }
            },
{
    let ghost orig = parties@;
    let ghost f0 = facts@;
    let mut facts = facts;
    let n = parties.len();
    let mut i: usize = 0;
    while i < n
        invariant
            i <= n == parties@.len() == orig.len() == facts@.len(),
            orig == old(parties)@,
            f0.len() == n,
            forall|j: int| i <= j < n ==> facts@[j] == f0[j] && parties@[j] == orig[j],
            forall|j: int|
                0 <= j < i ==> {
                    let before = orig[j];
                    let after = #[trigger] parties@[j];
                    &&& after.slug == before.slug && after.name == before.name && after.code == before.code
                    &&& after.colour == before.colour && after.seats == before.seats
                    &&& after.facts == match f0[j] {
                        Some(f) => Some(f),
                        None => before.facts,
                    }
                },
        decreases n - i,
    {
        let f = facts.remove(i);
        facts.insert(i, None);
        let ghost before = parties@;
        let mut p = parties.remove(i);
        match f {
            Some(x) => {
                p.facts = Some(x);
            },
            None => {},
        }
        parties.insert(i, p);
        proof {
            assert forall|j: int| 0 <= j < n && j != i implies parties@[j] == before[j] by {}
        }
        i = i + 1;
    }
}


// ---------------------------------------------------------------------------
// Election histories and current results
// ---------------------------------------------------------------------------

/// Position of the last person with the slug, or -1.
pub open spec fn last_with_slug(people: Seq<Person>, slug: Seq<char>) -> int
    decreases people.len(),
{
    if people.len() == 0 {
        -1
    } else if people.last().slug@ == slug {
        people.len() - 1
    } else {
        last_with_slug(people.drop_last(), slug)
    }
}

proof fn lemma_last_with_slug(people: Seq<Person>, slug: Seq<char>)
    ensures
        -1 <= last_with_slug(people, slug) < people.len(),
        last_with_slug(people, slug) >= 0 ==> people[last_with_slug(people, slug)].slug@ == slug,
        forall|k: int| last_with_slug(people, slug) < k < people.len() ==> (#[trigger] people[k]).slug@ != slug,
    decreases people.len(),
{
    if people.len() > 0 {
        lemma_last_with_slug(people.drop_last(), slug);
        assert forall|k: int| 0 <= k < people.len() - 1 implies people[k] == people.drop_last()[k] by {}
    }
}

/// The contest a first-preference row records for its candidate.
pub open spec fn contest_of(r: crate::schema::ElectorateResult, c: crate::schema::CandidateResult, x: crate::schema::ElectionContest) -> bool {
    &&& x.event == r.event_id && x.event_name == r.event_name
    &&& x.electorate_slug == r.electorate_slug && x.electorate_name == r.electorate_name
    &&& x.party == c.party && x.votes == c.votes && x.pct == c.pct && x.swing == c.swing
    &&& x.elected == c.elected
}

/// The (result, candidate) positions whose candidate slugs to person `i`'s
/// slug, with `i` the last person carrying it: that person's contests, in
/// result order, then candidate order.
pub open spec fn contests_for(people: Seq<Person>, i: int, results: Seq<crate::schema::ElectorateResult>) -> Seq<(int, int)>
    decreases results.len(),
{
    if results.len() == 0 {
        Seq::empty()
    } else {
        let n = results.len() - 1;
        contests_for(people, i, results.drop_last()) + contests_in(people, i, n, results.last().first_prefs@)
    }
}

pub open spec fn contests_in(people: Seq<Person>, i: int, n: int, cands: Seq<crate::schema::CandidateResult>) -> Seq<(int, int)>
    decreases cands.len(),
{
    if cands.len() == 0 {
        Seq::empty()
    } else {
        let prev = contests_in(people, i, n, cands.drop_last());
        if last_with_slug(people, slugify_spec(cands.last().name@)) == i {
            prev.push((n, cands.len() - 1))
        } else {
            prev
        }
    }
}

/// The events of a list of contests.
pub open spec fn event_keys(cs: Seq<crate::schema::ElectionContest>) -> Seq<Seq<char>> {
    cs.map_values(|c: crate::schema::ElectionContest| c.event@)
}

/// `after` is `p` with `found` appended to the contests it had and the whole
/// stably ordered newest event first; a person who had none and gains none
/// keeps none.
pub open spec fn contests_had(p: Person) -> Seq<crate::schema::ElectionContest> {
    match p.elections {
        Some(v) => v@,
        None => Seq::empty(),
    }
}

pub open spec fn merged_history(p: Person, found: Seq<crate::schema::ElectionContest>, after: Person) -> bool {
    let all = contests_had(p) + found;
    &&& after == (Person { elections: after.elections, ..p })
    &&& if p.elections is None && found.len() == 0 {
        after.elections is None
    } else {
        after.elections is Some && {
            let out = after.elections.unwrap()@;
            exists|q: Seq<usize>|
                {
                    &&& crate::sorting::is_permutation(q, all.len())
                    &&& crate::sorting::ordered_desc(event_keys(all), q)
                    &&& out.len() == all.len()
                    &&& forall|k: int| 0 <= k < out.len() ==> out[k] == all[#[trigger] q[k] as int]
                }
        }
    }
}

/// Person `i`'s history after the merge: the contests found for them, one
/// per position of `contests_for` and in that order, merged into what they
/// had.
pub open spec fn history_of(people: Seq<Person>, i: int, results: Seq<crate::schema::ElectorateResult>, after: Person) -> bool {
    let at = contests_for(people, i, results);
    exists|found: Seq<crate::schema::ElectionContest>|
        {
            &&& found.len() == at.len()
            &&& forall|k: int|
                0 <= k < found.len() ==> contest_of(results[at[k].0], results[at[k].0].first_prefs@[at[k].1], #[trigger] found[k])
            &&& #[trigger] merged_history(people[i], found, after)
        }
}

fn merge_history(p: Person, found: Vec<crate::schema::ElectionContest>) -> (after: Person)
    ensures
        merged_history(p, found@, after),
{
    let ghost p0 = p;
    let ghost had = contests_had(p0);
    if p.elections.is_none() && found.len() == 0 {
        return p;
    }
    let mut p = p;
    let mut taken: Option<Vec<crate::schema::ElectionContest>> = None;
    std::mem::swap(&mut p.elections, &mut taken);
    let mut all: Vec<crate::schema::ElectionContest> = match taken {
        Some(v) => v,
        None => Vec::new(),
    };
    let ghost f0 = found@;
    for x in it: found
        invariant
            it.seq() == f0,
            all@ == had + f0.take(it.index() as int),
    {
        proof {
            assert(f0.take(it.index() + 1) =~= f0.take(it.index() as int).push(f0[it.index() as int]));
        }
        all.push(x);
    }
    assert(f0.take(f0.len() as int) =~= f0);
    let mut keys: Vec<String> = Vec::new();
    let mut k: usize = 0;
    while k < all.len()
        invariant
            k <= all@.len(),
            keys@.len() == k,
            forall|m: int| 0 <= m < k ==> (#[trigger] keys@[m])@ == all@[m].event@,
        decreases all@.len() - k,
    {
        keys.push(all[k].event.clone());
        k = k + 1;
    }
    let ghost all0 = all@;
    assert(crate::text::string_views(keys@) =~= event_keys(all0));
    let sorted = crate::sorting::sorted_by(all, &keys, true);
    let ghost out = sorted@;
    p.elections = Some(sorted);
    proof {
        let q = choose|q: Seq<usize>|
            {
                &&& crate::sorting::is_permutation(q, all0.len())
                &&& crate::sorting::ordered_dir(crate::text::string_views(keys@), q, true)
                &&& out.len() == all0.len()
                &&& forall|i: int| 0 <= i < out.len() ==> out[i] == all0[#[trigger] q[i] as int]
            };
        assert({
            &&& crate::sorting::is_permutation(q, (had + f0).len())
            &&& crate::sorting::ordered_desc(event_keys(had + f0), q)
            &&& out.len() == (had + f0).len()
            &&& forall|k: int| 0 <= k < out.len() ==> out[k] == (had + f0)[#[trigger] q[k] as int]
        });
    }
    p
}

/// Every person's election history: each first-preference row whose
/// candidate's name slugs to a person's slug (the last person with it) adds
/// that contest to the person, and each person's contests end up newest
/// event first.
pub fn attach_election_history(people: &mut Vec<Person>, results: &[crate::schema::ElectorateResult])
    requires
        old(people)@.len() <= i64::MAX,
    ensures
        final(people)@.len() == old(people)@.len(),
        forall|i: int| 0 <= i < old(people)@.len() ==> history_of(old(people)@, i, results@, #[trigger] final(people)@[i]),
{
    let ghost orig = people@;
    let owners = candidate_owners(people, results);
    let n = people.len();
    let mut founds: Vec<Vec<crate::schema::ElectionContest>> = Vec::new();
    let mut i: usize = 0;
    while i < n
        invariant
            i <= n == people@.len() == orig.len() <= i64::MAX,
            people@ == orig,
            owners@.len() == results@.len(),
            forall|t: int|
                0 <= t < results@.len() ==> (#[trigger] owners@[t])@.len() == results@[t].first_prefs@.len() && forall|k: int|
                    0 <= k < owners@[t]@.len() ==> #[trigger] owners@[t]@[k] == last_with_slug(orig, slugify_spec(results@[t].first_prefs@[k].name@)),
            founds@.len() == i,
            forall|j: int|
                0 <= j < i ==> (#[trigger] founds@[j])@.len() == contests_for(orig, j, results@).len() && forall|k: int|
                    0 <= k < founds@[j]@.len() ==> {
                        let at = contests_for(orig, j, results@)[k];
                        contest_of(results@[at.0], results@[at.0].first_prefs@[at.1], #[trigger] founds@[j]@[k])
                    },
        decreases n - i,
    {
        let f = contests_of_person(people, i, results, &owners);
        founds.push(f);
        i = i + 1;
    }
    let ghost fs = founds@;
    i = 0;
    while i < n
        invariant
            i <= n == people@.len() == orig.len() == founds@.len() == fs.len(),
            orig == old(people)@,
            forall|j: int| i <= j < n ==> founds@[j] == fs[j] && people@[j] == orig[j],
            forall|j: int|
                0 <= j < n ==> (#[trigger] fs[j])@.len() == contests_for(orig, j, results@).len() && forall|k: int|
                    0 <= k < fs[j]@.len() ==> {
                        let at = contests_for(orig, j, results@)[k];
                        contest_of(results@[at.0], results@[at.0].first_prefs@[at.1], #[trigger] fs[j]@[k])
                    },
            forall|j: int| 0 <= j < i ==> history_of(orig, j, results@, #[trigger] people@[j]),
        decreases n - i,
    {
        let found = founds.remove(i);
        founds.insert(i, Vec::new());
        let ghost before = people@;
        let p = people.remove(i);
        let ghost fseq = found@;
        let after = merge_history(p, found);
        people.insert(i, after);
        proof {
            assert(fs[i as int] == found);
            assert(merged_history(orig[i as int], fseq, people@[i as int]));
            assert forall|j: int| 0 <= j < n && j != i implies people@[j] == before[j] by {}
        }
        i = i + 1;
    }
}

fn person_positions(people: &Vec<Person>) -> (r: indexmap::IndexMap<String, i64>)
    requires
        people@.len() <= i64::MAX,
    ensures
        forall|slug: Seq<char>|
            #![trigger entries_get(id_map_entries(r), slug)]
            match entries_get(id_map_entries(r), slug) {
                Some(j) => j == last_with_slug(people@, slug) && 0 <= j < people@.len(),
                None => last_with_slug(people@, slug) == -1,
            },
{
    let mut m = id_map_new();
    let mut i: usize = 0;
    while i < people.len()
        invariant
            i <= people@.len() <= i64::MAX,
            keys_distinct(id_map_entries(m)),
            forall|slug: Seq<char>|
                #![trigger entries_get(id_map_entries(m), slug)]
                match entries_get(id_map_entries(m), slug) {
                    Some(j) => j == last_with_slug(people@.take(i as int), slug) && 0 <= j < i,
                    None => last_with_slug(people@.take(i as int), slug) == -1,
                },
        decreases people@.len() - i,
    {
        proof {
            let e = id_map_entries(m);
            let s0 = people@[i as int].slug@;
            assert(people@.take(i + 1).drop_last() =~= people@.take(i as int));
            assert(people@.take(i + 1).last() == people@[i as int]);
            assert forall|slug: Seq<char>|
                #![trigger entries_get(crate::collections::entries_insert(e, s0, i as i64), slug)]
                match entries_get(crate::collections::entries_insert(e, s0, i as i64), slug) {
                    Some(j) => j == last_with_slug(people@.take(i + 1), slug) && 0 <= j < i + 1,
                    None => last_with_slug(people@.take(i + 1), slug) == -1,
                } by {
                law_insert_then_get(e, s0, i as i64, slug);
                assert(entries_get(e, slug) == entries_get(id_map_entries(m), slug));
            }
            law_insert_then_get(e, s0, i as i64, Seq::empty());
        }
        id_map_insert(&mut m, people[i].slug.clone(), i as i64);
        i = i + 1;
    }
    proof {
        assert(people@.take(people@.len() as int) =~= people@);
    }
    m
}

fn clone_opt(o: &Option<String>) -> (r: Option<String>)
    ensures
        r == *o,
{
    match o {
        Some(s) => Some(s.clone()),
        None => None,
    }
}

fn contest_from(r: &crate::schema::ElectorateResult, c: &crate::schema::CandidateResult) -> (x: crate::schema::ElectionContest)
    ensures
        contest_of(*r, *c, x),
{
    crate::schema::ElectionContest {
        event: r.event_id.clone(),
        event_name: r.event_name.clone(),
        electorate_slug: r.electorate_slug.clone(),
        electorate_name: r.electorate_name.clone(),
        party: c.party.clone(),
        votes: c.votes,
        pct: c.pct,
        swing: clone_opt(&c.swing),
        elected: c.elected,
    }
}

/// For each result and candidate, the person the candidate's slug names
/// (the last with that slug), or -1.
fn candidate_owners(people: &Vec<Person>, results: &[crate::schema::ElectorateResult]) -> (r: Vec<Vec<i64>>)
    requires
        people@.len() <= i64::MAX,
    ensures
        r@.len() == results@.len(),
        forall|t: int|
            0 <= t < results@.len() ==> (#[trigger] r@[t])@.len() == results@[t].first_prefs@.len() && forall|k: int|
                0 <= k < r@[t]@.len() ==> #[trigger] r@[t]@[k] == last_with_slug(people@, slugify_spec(results@[t].first_prefs@[k].name@)),
{
    let pos = person_positions(people);
    let mut out: Vec<Vec<i64>> = Vec::new();
    let mut t: usize = 0;
    while t < results.len()
        invariant
            t <= results@.len(),
            out@.len() == t,
            people@.len() <= i64::MAX,
            forall|slug: Seq<char>|
                #![trigger entries_get(id_map_entries(pos), slug)]
                match entries_get(id_map_entries(pos), slug) {
                    Some(j) => j == last_with_slug(people@, slug) && 0 <= j < people@.len(),
                    None => last_with_slug(people@, slug) == -1,
                },
            forall|u: int|
                0 <= u < t ==> (#[trigger] out@[u])@.len() == results@[u].first_prefs@.len() && forall|k: int|
                    0 <= k < out@[u]@.len() ==> #[trigger] out@[u]@[k] == last_with_slug(people@, slugify_spec(results@[u].first_prefs@[k].name@)),
        decreases results@.len() - t,
    {
        let cands = &results[t].first_prefs;
        let mut row: Vec<i64> = Vec::new();
        let mut k: usize = 0;
        while k < cands.len()
            invariant
                k <= cands@.len(),
                row@.len() == k,
                forall|slug: Seq<char>|
                    #![trigger entries_get(id_map_entries(pos), slug)]
                    match entries_get(id_map_entries(pos), slug) {
                        Some(j) => j == last_with_slug(people@, slug) && 0 <= j < people@.len(),
                        None => last_with_slug(people@, slug) == -1,
                    },
                forall|m: int| 0 <= m < k ==> #[trigger] row@[m] == last_with_slug(people@, slugify_spec(cands@[m].name@)),
            decreases cands@.len() - k,
        {
            let slug = slugify(cands[k].name.as_str());
            let owner = match id_map_get(&pos, slug.as_str()) {
                Some(j) => j,
                None => -1,
            };
            row.push(owner);
            k = k + 1;
        }
        out.push(row);
        t = t + 1;
    }
    out
}

fn contests_of_person(
    people: &Vec<Person>,
    i: usize,
    results: &[crate::schema::ElectorateResult],
    owners: &Vec<Vec<i64>>,
) -> (r: Vec<crate::schema::ElectionContest>)
    requires
        i < people@.len(),
        people@.len() <= i64::MAX,
        owners@.len() == results@.len(),
        forall|t: int|
            0 <= t < results@.len() ==> (#[trigger] owners@[t])@.len() == results@[t].first_prefs@.len() && forall|k: int|
                0 <= k < owners@[t]@.len() ==> #[trigger] owners@[t]@[k] == last_with_slug(people@, slugify_spec(results@[t].first_prefs@[k].name@)),
    ensures
        r@.len() == contests_for(people@, i as int, results@).len(),
        forall|k: int|
            0 <= k < r@.len() ==> {
                let at = contests_for(people@, i as int, results@)[k];
                contest_of(results@[at.0], results@[at.0].first_prefs@[at.1], #[trigger] r@[k])
            },
{
    let ghost ps = people@;
    let mut out: Vec<crate::schema::ElectionContest> = Vec::new();
    let mut t: usize = 0;
    while t < results.len()
        invariant
            t <= results@.len(),
            i < ps.len(),
            ps.len() <= i64::MAX,
            ps == people@,
            owners@.len() == results@.len(),
            forall|u: int|
                0 <= u < results@.len() ==> (#[trigger] owners@[u])@.len() == results@[u].first_prefs@.len() && forall|k: int|
                    0 <= k < owners@[u]@.len() ==> #[trigger] owners@[u]@[k] == last_with_slug(ps, slugify_spec(results@[u].first_prefs@[k].name@)),
            out@.len() == contests_for(ps, i as int, results@.take(t as int)).len(),
            forall|k: int|
                0 <= k < out@.len() ==> {
                    let at = contests_for(ps, i as int, results@.take(t as int))[k];
                    contest_of(results@[at.0], results@[at.0].first_prefs@[at.1], #[trigger] out@[k])
                },
        decreases results@.len() - t,
    {
        let ghost base = contests_for(ps, i as int, results@.take(t as int));
        let r = &results[t];
        let row = &owners[t];
        let mut k: usize = 0;
        while k < r.first_prefs.len()
            invariant
                k <= r.first_prefs@.len(),
                t < results@.len(),
                i < ps.len(),
                ps.len() <= i64::MAX,
                *r == results@[t as int],
                row@.len() == r.first_prefs@.len(),
                forall|m: int| 0 <= m < row@.len() ==> #[trigger] row@[m] == last_with_slug(ps, slugify_spec(r.first_prefs@[m].name@)),
                out@.len() == base.len() + contests_in(ps, i as int, t as int, r.first_prefs@.take(k as int)).len(),
                forall|m: int|
                    0 <= m < out@.len() ==> {
                        let at = (base + contests_in(ps, i as int, t as int, r.first_prefs@.take(k as int)))[m];
                        contest_of(results@[at.0], results@[at.0].first_prefs@[at.1], #[trigger] out@[m])
                    },
            decreases r.first_prefs@.len() - k,
        {
            let ghost part = contests_in(ps, i as int, t as int, r.first_prefs@.take(k as int));
            let ghost now = contests_in(ps, i as int, t as int, r.first_prefs@.take(k + 1));
            proof {
                assert(r.first_prefs@.take(k + 1).drop_last() =~= r.first_prefs@.take(k as int));
                assert(r.first_prefs@.take(k + 1).last() == r.first_prefs@[k as int]);
                assert(row@[k as int] == last_with_slug(ps, slugify_spec(r.first_prefs@[k as int].name@)));
            }
            let me: i64 = i as i64;
            if row[k] == me {
                let x = contest_from(r, &r.first_prefs[k]);
                let ghost before = out@;
                out.push(x);
                proof {
                    assert(now == part.push((t as int, k as int)));
                    assert(base + now =~= (base + part).push((t as int, k as int)));
                    assert forall|m: int| 0 <= m < out@.len() implies {
                        let at = (base + now)[m];
                        contest_of(results@[at.0], results@[at.0].first_prefs@[at.1], #[trigger] out@[m])
                    } by {
                        if m < before.len() {
                            assert(out@[m] == before[m]);
                            assert((base + now)[m] == (base + part)[m]);
                        }
                    }
                }
            } else {
                proof {
                    assert(now == part);
                }
            }
            k = k + 1;
        }
        proof {
            assert(r.first_prefs@.take(r.first_prefs@.len() as int) =~= r.first_prefs@);
            assert(results@.take(t + 1).drop_last() =~= results@.take(t as int));
            assert(results@.take(t + 1).last() == results@[t as int]);
            assert(contests_for(ps, i as int, results@.take(t + 1)) == base + contests_in(ps, i as int, t as int, r.first_prefs@));
        }
        t = t + 1;
    }
    proof {
        assert(results@.take(results@.len() as int) =~= results@);
    }
    out
}

// ---------------------------------------------------------------------------
// Current electorate results
// ---------------------------------------------------------------------------

pub open spec fn electorate_slugs(es: Seq<crate::schema::Electorate>) -> Seq<Seq<char>> {
    es.map_values(|e: crate::schema::Electorate| e.slug@)
}

/// The electorate-to-result entries after reading the first `n` results: a
/// result for a current electorate takes the electorate's entry when it has
/// none yet or when its event id sorts after the kept result's; the entry
/// keeps its first place.
pub open spec fn latest_upto(results: Seq<crate::schema::ElectorateResult>, n: nat, current: Seq<Seq<char>>) -> Seq<(Seq<char>, i64)>
    decreases n,
{
    if n == 0 {
        Seq::empty()
    } else {
        let prev = latest_upto(results, (n - 1) as nat, current);
        let r = results[n - 1];
        let slug = r.electorate_slug@;
        if !current.contains(slug) {
            prev
        } else {
            match entries_get(prev, slug) {
                Some(j) => if crate::config::text_less(results[j as int].event_id@, r.event_id@) {
                    crate::collections::entries_insert(prev, slug, (n - 1) as i64)
                } else {
                    prev
                },
                None => crate::collections::entries_insert(prev, slug, (n - 1) as i64),
            }
        }
    }
}

proof fn lemma_latest_upto(results: Seq<crate::schema::ElectorateResult>, n: nat, current: Seq<Seq<char>>)
    requires
        n <= results.len() <= i64::MAX,
    ensures
        keys_distinct(latest_upto(results, n, current)),
        forall|k: int|
            0 <= k < latest_upto(results, n, current).len() ==> 0 <= (#[trigger] latest_upto(results, n, current)[k]).1 < n,
        forall|a: int, b: int|
            0 <= a < b < latest_upto(results, n, current).len() ==> (#[trigger] latest_upto(results, n, current)[a]).1
                != (#[trigger] latest_upto(results, n, current)[b]).1,
    decreases n,
{
    if n > 0 {
        let m = (n - 1) as nat;
        lemma_latest_upto(results, m, current);
        let prev = latest_upto(results, m, current);
        let slug = results[m as int].electorate_slug@;
        crate::collections::lemma_key_index(prev, slug);
        law_insert_then_get(prev, slug, m as i64, slug);
        let e = latest_upto(results, n, current);
        if e != prev {
            let ins = crate::collections::entries_insert(prev, slug, m as i64);
            assert(e == ins);
            let i = crate::collections::key_index(prev, slug);
            assert forall|k: int| 0 <= k < e.len() implies 0 <= (#[trigger] e[k]).1 < n by {
                if k < prev.len() && k != i {
                    assert(e[k] == prev[k]);
                }
            }
            assert forall|a: int, b: int| 0 <= a < b < e.len() implies (#[trigger] e[a]).1 != (#[trigger] e[b]).1 by {
                if a != i && b != i && b < prev.len() {
                    assert(e[a] == prev[a] && e[b] == prev[b]);
                } else if a == i || (i < 0 && a == prev.len()) {
                    assert(e[a].1 == m);
                    assert(e[b] == prev[b]);
                } else {
                    assert(e[b].1 == m);
                    assert(e[a] == prev[a]);
                }
            }
        }
    }
}

fn slug_listed(es: &[crate::schema::Electorate], slug: &str) -> (r: bool)
    ensures
        r == electorate_slugs(es@).contains(slug@),
{
    let mut k: usize = 0;
    while k < es.len()
        invariant
            k <= es@.len(),
            forall|m: int| 0 <= m < k ==> es@[m].slug@ != slug@,
        decreases es@.len() - k,
    {
        if str_eq(es[k].slug.as_str(), slug) {
            assert(electorate_slugs(es@)[k as int] == slug@);
            return true;
        }
        k = k + 1;
    }
    proof {
        if electorate_slugs(es@).contains(slug@) {
            let m = choose|m: int| 0 <= m < electorate_slugs(es@).len() && electorate_slugs(es@)[m] == slug@;
            assert(es@[m].slug@ == slug@);
        }
    }
    false
}

/// Each current electorate's most recent result: per electorate slug, the
/// result whose event id sorts last (the first such on a tie), in the order
/// the electorates first appear among the results.
pub fn latest_results(results: Vec<crate::schema::ElectorateResult>, electorates: &[crate::schema::Electorate]) -> (r: Vec<crate::schema::ElectorateResult>)
    requires
        results@.len() <= i64::MAX,
    ensures
        ({
            let e = latest_upto(results@, results@.len(), electorate_slugs(electorates@));
            &&& r@.len() == e.len()
            &&& forall|k: int| 0 <= k < r@.len() ==> r@[k] == results@[#[trigger] e[k].1 as int]
        }),
{
    let ghost cur = electorate_slugs(electorates@);
    let n = results.len();
    let mut m = id_map_new();
    let mut t: usize = 0;
    while t < n
        invariant
            t <= n == results@.len() <= i64::MAX,
            cur == electorate_slugs(electorates@),
            id_map_entries(m) == latest_upto(results@, t as nat, cur),
        decreases n - t,
    {
        proof {
            lemma_latest_upto(results@, t as nat, cur);
        }
        let slug = &results[t].electorate_slug;
        if slug_listed(electorates, slug.as_str()) {
            match id_map_get(&m, slug.as_str()) {
                Some(j) => {
                    proof {
                        crate::collections::lemma_key_index(id_map_entries(m), slug@);
                        let i = crate::collections::key_index(id_map_entries(m), slug@);
                        assert(0 <= id_map_entries(m)[i].1 < t);
                    }
                    let ju = j as usize;
                    if crate::config::str_less(results[ju].event_id.as_str(), results[t].event_id.as_str()) {
                        id_map_insert(&mut m, slug.clone(), t as i64);
                    }
                },
                None => {
                    id_map_insert(&mut m, slug.clone(), t as i64);
                },
            }
        }
        t = t + 1;
    }
    proof {
        lemma_latest_upto(results@, n as nat, cur);
    }
    let pairs = crate::collections::id_map_pairs(&m);
    let ghost e = id_map_entries(m);
    let mut order: Vec<usize> = Vec::new();
    let mut k: usize = 0;
    while k < pairs.len()
        invariant
            k <= pairs@.len() == e.len(),
            crate::collections::id_entry_views(pairs@) == e,
            forall|a: int| 0 <= a < e.len() ==> 0 <= (#[trigger] e[a]).1 < n,
            order@.len() == k,
            forall|a: int| 0 <= a < k ==> #[trigger] order@[a] == e[a].1,
        decreases pairs@.len() - k,
    {
        assert(pairs@[k as int].1 == e[k as int].1);
        assert(0 <= e[k as int].1 < n);
        order.push(pairs[k].1 as usize);
        k = k + 1;
    }
    proof {
        assert forall|a: int, b: int| 0 <= a < b < order@.len() implies order@[a] != order@[b] by {
            assert(e[a].1 != e[b].1);
        }
    }
    crate::sorting::select(results, &order)
}

// ---------------------------------------------------------------------------
// Bundle order
// ---------------------------------------------------------------------------

pub open spec fn person_keys(v: Seq<Person>) -> Seq<Seq<char>> {
    v.map_values(|x: Person| x.slug@)
}

pub open spec fn party_keys(v: Seq<Party>) -> Seq<Seq<char>> {
    v.map_values(|x: Party| x.slug@)
}

pub open spec fn electorate_keys(v: Seq<crate::schema::Electorate>) -> Seq<Seq<char>> {
    v.map_values(|x: crate::schema::Electorate| x.slug@)
}

pub open spec fn bill_keys(v: Seq<Bill>) -> Seq<Seq<char>> {
    v.map_values(|x: Bill| x.title@)
}

pub open spec fn result_keys(v: Seq<crate::schema::ElectorateResult>) -> Seq<Seq<char>> {
    v.map_values(|x: crate::schema::ElectorateResult| x.electorate_slug@)
}

/// The people bundle: by slug.
pub fn people_bundle(people: Vec<Person>) -> (r: Vec<Person>)
    ensures
        crate::sorting::sorted_on(people@, person_keys(people@), r@),
{
    let mut keys: Vec<String> = Vec::new();
    let mut k: usize = 0;
    while k < people.len()
        invariant
            k <= people@.len(),
            keys@.len() == k,
            forall|m: int| 0 <= m < k ==> (#[trigger] keys@[m])@ == people@[m].slug@,
        decreases people@.len() - k,
    {
        keys.push(people[k].slug.clone());
        k = k + 1;
    }
    assert(crate::text::string_views(keys@) =~= person_keys(people@));
    crate::sorting::sorted_on_keys(people, &keys)
}

/// The parties bundle: by slug.
pub fn parties_bundle(parties: Vec<Party>) -> (r: Vec<Party>)
    ensures
        crate::sorting::sorted_on(parties@, party_keys(parties@), r@),
{
    let mut keys: Vec<String> = Vec::new();
    let mut k: usize = 0;
    while k < parties.len()
        invariant
            k <= parties@.len(),
            keys@.len() == k,
            forall|m: int| 0 <= m < k ==> (#[trigger] keys@[m])@ == parties@[m].slug@,
        decreases parties@.len() - k,
    {
        keys.push(parties[k].slug.clone());
        k = k + 1;
    }
    assert(crate::text::string_views(keys@) =~= party_keys(parties@));
    crate::sorting::sorted_on_keys(parties, &keys)
}

/// The electorates bundle: by slug.
pub fn electorates_bundle(electorates: Vec<crate::schema::Electorate>) -> (r: Vec<crate::schema::Electorate>)
    ensures
        crate::sorting::sorted_on(electorates@, electorate_keys(electorates@), r@),
{
    let mut keys: Vec<String> = Vec::new();
    let mut k: usize = 0;
    while k < electorates.len()
        invariant
            k <= electorates@.len(),
            keys@.len() == k,
            forall|m: int| 0 <= m < k ==> (#[trigger] keys@[m])@ == electorates@[m].slug@,
        decreases electorates@.len() - k,
    {
        keys.push(electorates[k].slug.clone());
        k = k + 1;
    }
    assert(crate::text::string_views(keys@) =~= electorate_keys(electorates@));
    crate::sorting::sorted_on_keys(electorates, &keys)
}

/// The bills bundle: by title.
pub fn bills_bundle(bills: Vec<Bill>) -> (r: Vec<Bill>)
    ensures
        crate::sorting::sorted_on(bills@, bill_keys(bills@), r@),
{
    let mut keys: Vec<String> = Vec::new();
    let mut k: usize = 0;
    while k < bills.len()
        invariant
            k <= bills@.len(),
            keys@.len() == k,
            forall|m: int| 0 <= m < k ==> (#[trigger] keys@[m])@ == bills@[m].title@,
        decreases bills@.len() - k,
    {
        keys.push(bills[k].title.clone());
        k = k + 1;
    }
    assert(crate::text::string_views(keys@) =~= bill_keys(bills@));
    crate::sorting::sorted_on_keys(bills, &keys)
}

/// The electorate results bundle: by electorate slug.
pub fn results_bundle(results: Vec<crate::schema::ElectorateResult>) -> (r: Vec<crate::schema::ElectorateResult>)
    ensures
        crate::sorting::sorted_on(results@, result_keys(results@), r@),
{
    let mut keys: Vec<String> = Vec::new();
    let mut k: usize = 0;
    while k < results.len()
        invariant
            k <= results@.len(),
            keys@.len() == k,
            forall|m: int| 0 <= m < k ==> (#[trigger] keys@[m])@ == results@[m].electorate_slug@,
        decreases results@.len() - k,
    {
        keys.push(results[k].electorate_slug.clone());
        k = k + 1;
    }
    assert(crate::text::string_views(keys@) =~= result_keys(results@));
    crate::sorting::sorted_on_keys(results, &keys)
}

/// `s` left-padded with '0' to four characters.
pub open spec fn pad4(s: Seq<char>) -> Seq<char> {
    if s.len() < 4 {
        Seq::new((4 - s.len()) as nat, |i: int| '0') + s
    } else {
        s
    }
}

/// A division's sort key: date, number padded to four places, house.
pub open spec fn division_key(d: Division) -> Seq<char> {
    d.date@ + "-"@ + pad4(crate::text::decimal_int(d.number as int)) + "-"@ + house_name(d.house)
}

pub open spec fn division_keys(v: Seq<Division>) -> Seq<Seq<char>> {
    v.map_values(|x: Division| division_key(x))
}

fn division_sort_key(d: &Division) -> (r: String)
    ensures
        r@ == division_key(*d),
{
    let num = crate::text::int_text(d.number);
    let digits = chars_of(num.as_str());
    let mut padded: Vec<char> = Vec::new();
    let mut k: usize = digits.len();
    while k < 4
        invariant
            digits.len() <= k,
            k <= 4 || k == digits.len(),
            padded@ == Seq::new((k - digits.len()) as nat, |i: int| '0'),
        decreases 4 - k,
    {
        padded.push('0');
        k = k + 1;
        assert(padded@ =~= Seq::new((k - digits.len()) as nat, |i: int| '0'));
    }
    let mut m: usize = 0;
    let ghost lead = padded@;
    while m < digits.len()
        invariant
            m <= digits@.len(),
            padded@ == lead + digits@.take(m as int),
        decreases digits@.len() - m,
    {
        padded.push(digits[m]);
        m = m + 1;
        assert(padded@ =~= lead + digits@.take(m as int));
    }
    assert(digits@.take(digits@.len() as int) =~= digits@);
    assert(padded@ =~= pad4(num@));
    let pad = string_of(&padded);
    proof {
        reveal_strlit("-");
    }
    let head = concat3(d.date.as_str(), "-", pad.as_str());
    concat3(head.as_str(), "-", d.house.as_str())
}

/// The divisions bundle: newest first, by sorting on date, padded number and
/// house and reading the result backwards.
pub fn divisions_bundle(divisions: Vec<Division>) -> (r: Vec<Division>)
    ensures
        exists|s: Seq<Division>|
            #![trigger crate::sorting::sorted_on(divisions@, division_keys(divisions@), s)]
            crate::sorting::sorted_on(divisions@, division_keys(divisions@), s) && r@ == s.reverse(),
{
    let mut keys: Vec<String> = Vec::new();
    let mut k: usize = 0;
    while k < divisions.len()
        invariant
            k <= divisions@.len(),
            keys@.len() == k,
            forall|m: int| 0 <= m < k ==> (#[trigger] keys@[m])@ == division_key(divisions@[m]),
        decreases divisions@.len() - k,
    {
        keys.push(division_sort_key(&divisions[k]));
        k = k + 1;
    }
    assert(crate::text::string_views(keys@) =~= division_keys(divisions@));
    let ghost orig = divisions@;
    let mut sorted = crate::sorting::sorted_on_keys(divisions, &keys);
    let ghost s = sorted@;
    let mut out: Vec<Division> = Vec::new();
    while sorted.len() > 0
        invariant
            sorted@ == s.take(sorted@.len() as int),
            sorted@.len() <= s.len(),
            out@ == s.skip(sorted@.len() as int).reverse(),
        decreases sorted@.len(),
    {
        let n = sorted.len();
        let x = sorted.pop().unwrap();
        proof {
            assert(s.take(n - 1) =~= s.take(n as int).drop_last());
        }
        out.push(x);
        assert(out@ =~= s.skip(sorted@.len() as int).reverse());
    }
    assert(s.skip(0) =~= s);
    out
}

// ---------------------------------------------------------------------------
// Quick search
// ---------------------------------------------------------------------------

/// The quick-search line under a person's name: a senator's state, or a
/// member's electorate written as a title.
pub open spec fn person_sub(p: Person) -> Seq<char> {
    match p.house {
        House::Senate => "Senator \u{b7} "@ + match p.state {
            Some(st) => state_name(st),
            None => Seq::empty(),
        },
        House::Representatives => "MP \u{b7} "@ + title_of_slug(opt_view(p.electorate)),
    }
}

pub open spec fn bill_entry(b: Bill, e: crate::schema::QuickSearchEntry) -> bool {
    e.t@ == "bill"@ && e.slug == b.id && e.name == b.title && e.sub == b.status
}

pub open spec fn person_entry(p: Person, e: crate::schema::QuickSearchEntry) -> bool {
    e.t@ == "person"@ && e.slug == p.slug && e.name == p.name && e.sub@ == person_sub(p)
}

pub open spec fn electorate_entry(x: crate::schema::Electorate, e: crate::schema::QuickSearchEntry) -> bool {
    e.t@ == "electorate"@ && e.slug == x.slug && e.name == x.name && e.sub@ == "Electorate \u{b7} "@ + state_name(x.state)
}

fn person_search_sub(p: &Person) -> (r: String)
    ensures
        r@ == person_sub(*p),
{
    match p.house {
        House::Senate => {
            let st = match p.state {
                Some(s) => s.as_str(),
                None => "",
            };
            proof {
                reveal_strlit("");
                assert(""@ =~= Seq::<char>::empty());
            }
            concat2("Senator \u{b7} ", st)
        },
        House::Representatives => {
            let place = match &p.electorate {
                Some(e) => title_from_slug(Some(e.as_str())),
                None => title_from_slug(None),
            };
            concat2("MP \u{b7} ", place.as_str())
        },
    }
}

/// The quick-search index: every bill, then every person, then every
/// electorate, each in the order given.
pub fn quick_search(bills: &[Bill], people: &[Person], electorates: &[crate::schema::Electorate]) -> (r: Vec<crate::schema::QuickSearchEntry>)
    ensures
        r@.len() == bills@.len() + people@.len() + electorates@.len(),
        forall|k: int| 0 <= k < bills@.len() ==> bill_entry(bills@[k], #[trigger] r@[k]),
        forall|k: int| 0 <= k < people@.len() ==> person_entry(people@[k], #[trigger] r@[bills@.len() + k]),
        forall|k: int|
            0 <= k < electorates@.len() ==> electorate_entry(electorates@[k], #[trigger] r@[bills@.len() + people@.len() + k]),
{
    let mut out: Vec<crate::schema::QuickSearchEntry> = Vec::new();
    let nb = bills.len();
    let np = people.len();
    let mut k: usize = 0;
    while k < nb
        invariant
            k <= nb == bills@.len(),
            out@.len() == k,
            forall|m: int| 0 <= m < k ==> bill_entry(bills@[m], #[trigger] out@[m]),
        decreases nb - k,
    {
        let b = &bills[k];
        out.push(crate::schema::QuickSearchEntry { t: owned("bill"), slug: b.id.clone(), name: b.title.clone(), sub: b.status.clone() });
        k = k + 1;
    }
    k = 0;
    while k < np
        invariant
            k <= np == people@.len(),
            nb == bills@.len(),
            out@.len() == nb + k,
            forall|m: int| 0 <= m < nb ==> bill_entry(bills@[m], #[trigger] out@[m]),
            forall|m: int| 0 <= m < k ==> person_entry(people@[m], #[trigger] out@[nb + m]),
        decreases np - k,
    {
        let p = &people[k];
        let sub = person_search_sub(p);
        out.push(crate::schema::QuickSearchEntry { t: owned("person"), slug: p.slug.clone(), name: p.name.clone(), sub });
        k = k + 1;
    }
    k = 0;
    while k < electorates.len()
        invariant
            k <= electorates@.len(),
            np == people@.len(),
            nb == bills@.len(),
            out@.len() == nb + np + k,
            forall|m: int| 0 <= m < nb ==> bill_entry(bills@[m], #[trigger] out@[m]),
            forall|m: int| 0 <= m < np ==> person_entry(people@[m], #[trigger] out@[nb + m]),
            forall|m: int| 0 <= m < k ==> electorate_entry(electorates@[m], #[trigger] out@[nb + np + m]),
        decreases electorates@.len() - k,
    {
        let e = &electorates[k];
        let sub = concat2("Electorate \u{b7} ", e.state.as_str());
        out.push(crate::schema::QuickSearchEntry { t: owned("electorate"), slug: e.slug.clone(), name: e.name.clone(), sub });
        k = k + 1;
    }
    out
}

} // verus!
