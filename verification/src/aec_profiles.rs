//! The AEC's official electorate profiles: the facts scraped from each
//! profile page's label/value pairs, and enrolment figures per seat.

use crate::collections::{
    entries_get, entries_insert, id_map_entries, id_map_get, id_map_insert, id_map_new,
    text_map_entries, text_map_get, text_map_insert, text_map_new,
};
use crate::html::{pass_exec, run_pass, Pass};
use crate::schema::{Electorate, ElectorateProfileFacts};
use crate::text::{
    chars_of, concat3, is_white_space, lowercase_of, replace_all, replace_seq, str_eq, string_of,
    sub_chars, to_lower, trim_chars, trim_seq, white_space,
};
use indexmap::IndexMap;
use vstd::prelude::*;

verus! {

/// What is stored per electorate from its profile page.
#[derive(Debug, Clone)]
pub struct ElectorateProfile {
    pub stored_at: String,
    pub profile: ElectorateProfileFacts,
    pub enrolment: Option<i64>,
}

/// Profile prose changes rarely; refresh weekly.
pub const REFRESH_MILLIS: i64 = 604800000;

/// After this many failed pages a sync stops.
pub const MAX_PAGE_FAILURES: u32 = 10;

/// The path segment of a state's profile pages.
pub open spec fn state_path_spec(state: Seq<char>) -> Seq<char> {
    if state == "NSW"@ {
        "nsw"@
    } else if state == "VIC"@ {
        "vic"@
    } else if state == "QLD"@ {
        "qld"@
    } else if state == "WA"@ {
        "wa"@
    } else if state == "SA"@ {
        "sa"@
    } else if state == "TAS"@ {
        "tas"@
    } else if state == "ACT"@ {
        "act"@
    } else if state == "NT"@ {
        "nt"@
    } else {
        ""@
    }
}

pub fn state_path(state: &str) -> (r: &'static str)
    ensures
        r@ == state_path_spec(state@),
{
    if str_eq(state, "NSW") {
        "nsw"
    } else if str_eq(state, "VIC") {
        "vic"
    } else if str_eq(state, "QLD") {
        "qld"
    } else if str_eq(state, "WA") {
        "wa"
    } else if str_eq(state, "SA") {
        "sa"
    } else if str_eq(state, "TAS") {
        "tas"
    } else if str_eq(state, "ACT") {
        "act"
    } else if str_eq(state, "NT") {
        "nt"
    } else {
        ""
    }
}

/// `{profiles host}/profiles/{state path}/{slug}.htm`.
pub fn profile_url(host: &str, e: &Electorate) -> (r: String)
    ensures
        r@ == host@ + "/profiles/"@ + state_path_spec(crate::schema::state_name(e.state)) + "/"@ + e.slug@
            + ".htm"@,
{
    let head = concat3(host, "/profiles/", state_path(e.state.as_str()));
    let mid = concat3(head.as_str(), "/", e.slug.as_str());
    crate::text::concat2(mid.as_str(), ".htm")
}

/// `canonical/electorate-profiles/{slug}.json`.
pub fn profile_key(slug: &str) -> (r: String)
    ensures
        r@ == "canonical/electorate-profiles/"@ + slug@ + ".json"@,
{
    concat3("canonical/electorate-profiles/", slug, ".json")
}

/// Whether a stored profile is younger than a week at `now_ms`; an
/// unreadable timestamp counts as infinitely old.
pub fn profile_is_fresh(existing: Option<&ElectorateProfile>, now_ms: i64) -> (r: bool)
    ensures
        r == match existing {
            Some(e) => match crate::handbook::rfc3339_millis(e.stored_at@) {
                Some(then) => now_ms - then < REFRESH_MILLIS,
                None => false,
            },
            None => false,
        },
{
    match existing {
        Some(e) => match crate::handbook::parse_rfc3339_millis(e.stored_at.as_str()) {
            Some(then) => {
                let age: i128 = now_ms as i128 - then as i128;
                age < REFRESH_MILLIS as i128
            },
            None => false,
        },
        None => false,
    }
}

// ---------------------------------------------------------------------------
// Cleaning profile markup
// ---------------------------------------------------------------------------

/// The named entities profile prose uses, replaced in this order; `&amp;`
/// comes last of all, so an escaped entity such as `&amp;ndash;` survives as
/// text.
pub open spec fn named_entities_replaced(s: Seq<char>) -> Seq<char> {
    let a = replace_seq(s, "&nbsp;"@, " "@);
    let b = replace_seq(a, "&ndash;"@, "\u{2013}"@);
    let c = replace_seq(b, "&mdash;"@, "\u{2014}"@);
    let d = replace_seq(c, "&lsquo;"@, "\u{2018}"@);
    let e = replace_seq(d, "&rsquo;"@, "\u{2019}"@);
    let f = replace_seq(e, "&ldquo;"@, "\u{201c}"@);
    let g = replace_seq(f, "&rdquo;"@, "\u{201d}"@);
    let h = replace_seq(g, "&hellip;"@, "\u{2026}"@);
    let i = replace_seq(h, "&quot;"@, "\""@);
    let j = replace_seq(i, "&apos;"@, "'"@);
    let k = replace_seq(j, "&lt;"@, "<"@);
    replace_seq(k, "&gt;"@, ">"@)
}

/// Profile markup flattened to text: tags become spaces, the named entities
/// are replaced, numeric references decoded (an invalid one dropped),
/// `&amp;` decoded, white space runs collapsed and the ends trimmed.
pub open spec fn clean_spec(html: Seq<char>) -> Seq<char> {
    let tagless = run_pass(Pass::Tags, html);
    let named = named_entities_replaced(tagless);
    let numeric = run_pass(Pass::Numeric, named);
    let amp = replace_seq(numeric, "&amp;"@, "&"@);
    trim_seq(run_pass(Pass::Spaces, amp))
}

pub fn clean(html: &str) -> (r: String)
    ensures
        r@ == clean_spec(html@),
{
    let v = chars_of(html);
    let a = pass_exec(Pass::Tags, &v);
    let t = string_of(&a);
    let t = replace_all(t.as_str(), "&nbsp;", " ");
    let t = replace_all(t.as_str(), "&ndash;", "\u{2013}");
    let t = replace_all(t.as_str(), "&mdash;", "\u{2014}");
    let t = replace_all(t.as_str(), "&lsquo;", "\u{2018}");
    let t = replace_all(t.as_str(), "&rsquo;", "\u{2019}");
    let t = replace_all(t.as_str(), "&ldquo;", "\u{201c}");
    let t = replace_all(t.as_str(), "&rdquo;", "\u{201d}");
    let t = replace_all(t.as_str(), "&hellip;", "\u{2026}");
    let t = replace_all(t.as_str(), "&quot;", "\"");
    let t = replace_all(t.as_str(), "&apos;", "'");
    let t = replace_all(t.as_str(), "&lt;", "<");
    let t = replace_all(t.as_str(), "&gt;", ">");
    let w = chars_of(t.as_str());
    let n = pass_exec(Pass::Numeric, &w);
    let t = string_of(&n);
    let t = replace_all(t.as_str(), "&amp;", "&");
    let w = chars_of(t.as_str());
    let sp = pass_exec(Pass::Spaces, &w);
    let f = trim_chars(&sp);
    string_of(&f)
}

// ---------------------------------------------------------------------------
// Label/value pairs: `<dt ...>label</dt> <dd ...>value</dd>`, tag names in
// either case, scanned left to right; each label runs to the first `</dt>`
// that a `<dd>` follows with a closing `</dd>` somewhere after it, and each
// value to the first `</dd>`.
// ---------------------------------------------------------------------------

/// `a` spells `lo` with each character taken from `lo` or from `up`.
pub open spec fn ci_eq(a: Seq<char>, lo: Seq<char>, up: Seq<char>) -> bool {
    &&& a.len() == lo.len()
    &&& forall|k: int| 0 <= k < lo.len() ==> #[trigger] a[k] == lo[k] || a[k] == up[k]
}

/// `h` spells `lo` (in either case) at position `i`.
pub open spec fn ci_at(h: Seq<char>, i: int, lo: Seq<char>, up: Seq<char>) -> bool {
    &&& 0 <= i
    &&& i + lo.len() <= h.len()
    &&& ci_eq(h.subrange(i, i + lo.len()), lo, up)
}

/// The first `>` at or after `i`, or -1.
pub open spec fn first_gt(h: Seq<char>, i: int) -> int
    decreases h.len() - i,
{
    if i < 0 || i >= h.len() {
        -1
    } else if h[i] == '>' {
        i
    } else {
        first_gt(h, i + 1)
    }
}

/// The first position at or after `i` that is not white space.
pub open spec fn skip_ws(h: Seq<char>, i: int) -> int
    decreases h.len() - i,
{
    if i < 0 || i >= h.len() {
        i
    } else if is_white_space(h[i]) {
        skip_ws(h, i + 1)
    } else {
        i
    }
}

/// The first position at or after `i` where `lo` is spelt, or -1.
pub open spec fn find_ci(h: Seq<char>, i: int, lo: Seq<char>, up: Seq<char>) -> int
    decreases h.len() - i,
{
    if i < 0 || i + lo.len() > h.len() {
        -1
    } else if ci_at(h, i, lo, up) {
        i
    } else {
        find_ci(h, i + 1, lo, up)
    }
}

/// What follows a label that ends at `j`: `</dt>`, white space, `<dd ...>`,
/// the value, `</dd>`. Gives where the value starts and ends and where the
/// match ends.
pub open spec fn tail_at(h: Seq<char>, j: int) -> Option<(int, int, int)> {
    if !ci_at(h, j, "</dt>"@, "</DT>"@) {
        None
    } else {
        let w = skip_ws(h, j + 5);
        if !ci_at(h, w, "<dd"@, "<DD"@) {
            None
        } else {
            let g = first_gt(h, w + 3);
            if g < 0 {
                None
            } else {
                let e = find_ci(h, g + 1, "</dd>"@, "</DD>"@);
                if e < 0 {
                    None
                } else {
                    Some((g + 1, e, e + 5))
                }
            }
        }
    }
}

/// The first label end at or after `j` with a tail, and that tail.
pub open spec fn label_end(h: Seq<char>, j: int) -> Option<(int, (int, int, int))>
    decreases h.len() - j,
{
    if j < 0 || j > h.len() {
        None
    } else {
        match tail_at(h, j) {
            Some(t) => Some((j, t)),
            None => if j < h.len() {
                label_end(h, j + 1)
            } else {
                None
            },
        }
    }
}

/// A pair starting at `s`: label start and end, value start and end, match
/// end.
pub open spec fn match_at(h: Seq<char>, s: int) -> Option<(int, int, int, int, int)> {
    if !ci_at(h, s, "<dt"@, "<DT"@) {
        None
    } else {
        let g = first_gt(h, s + 3);
        if g < 0 {
            None
        } else {
            match label_end(h, g + 1) {
                Some((je, t)) => Some((g + 1, je, t.0, t.1, t.2)),
                None => None,
            }
        }
    }
}

/// The raw label and value of every pair from position `p` on.
pub open spec fn captures_from(h: Seq<char>, p: int) -> Seq<(Seq<char>, Seq<char>)>
    decreases h.len() - p,
{
    if p < 0 || p >= h.len() {
        Seq::empty()
    } else {
        match match_at(h, p) {
            Some(m) => if p < m.4 <= h.len() {
                seq![(h.subrange(m.0, m.1), h.subrange(m.2, m.3))] + captures_from(h, m.4)
            } else {
                Seq::empty()
            },
            None => captures_from(h, p + 1),
        }
    }
}

proof fn lemma_first_gt(h: Seq<char>, i: int)
    requires
        0 <= i,
    ensures
        first_gt(h, i) == -1 || (i <= first_gt(h, i) < h.len() && h[first_gt(h, i)] == '>'),
    decreases h.len() - i,
{
    if i < h.len() && h[i] != '>' {
        lemma_first_gt(h, i + 1);
    }
}

proof fn lemma_skip_ws(h: Seq<char>, i: int)
    requires
        0 <= i <= h.len(),
    ensures
        i <= skip_ws(h, i) <= h.len(),
    decreases h.len() - i,
{
    if i < h.len() && is_white_space(h[i]) {
        lemma_skip_ws(h, i + 1);
    }
}

proof fn lemma_find_ci(h: Seq<char>, i: int, lo: Seq<char>, up: Seq<char>)
    requires
        0 <= i,
    ensures
        find_ci(h, i, lo, up) == -1 || (i <= find_ci(h, i, lo, up) && find_ci(h, i, lo, up) + lo.len() <= h.len()),
    decreases h.len() - i,
{
    if i + lo.len() <= h.len() && !ci_at(h, i, lo, up) {
        lemma_find_ci(h, i + 1, lo, up);
    }
}

proof fn lemma_tail_at(h: Seq<char>, j: int)
    ensures
        tail_at(h, j) matches Some(t) ==> 0 <= j < t.0 <= t.1 && t.2 == t.1 + 5 && t.2 <= h.len(),
{
    reveal_strlit("</dt>");
    reveal_strlit("<dd");
    reveal_strlit("</dd>");
    if ci_at(h, j, "</dt>"@, "</DT>"@) {
        lemma_skip_ws(h, j + 5);
        let w = skip_ws(h, j + 5);
        if ci_at(h, w, "<dd"@, "<DD"@) {
            lemma_first_gt(h, w + 3);
            let g = first_gt(h, w + 3);
            if g >= 0 {
                lemma_find_ci(h, g + 1, "</dd>"@, "</DD>"@);
            }
        }
    }
}

proof fn lemma_label_end(h: Seq<char>, j: int)
    ensures
        label_end(h, j) matches Some((je, t)) ==> j <= je && 0 <= je < t.0 <= t.1 && t.2 == t.1 + 5 && t.2 <= h.len(),
    decreases h.len() - j,
{
    if 0 <= j <= h.len() {
        lemma_tail_at(h, j);
        if tail_at(h, j) is None && j < h.len() {
            lemma_label_end(h, j + 1);
        }
    }
}

proof fn lemma_match_at(h: Seq<char>, s: int)
    ensures
        match_at(h, s) matches Some(m) ==> 0 <= s < m.0 <= m.1 < m.2 <= m.3 < m.4 <= h.len(),
{
    reveal_strlit("<dt");
    if ci_at(h, s, "<dt"@, "<DT"@) {
        lemma_first_gt(h, s + 3);
        let g = first_gt(h, s + 3);
        if g >= 0 {
            lemma_label_end(h, g + 1);
        }
    }
}

fn ci_at_exec(v: &Vec<char>, i: usize, lo: &Vec<char>, up: &Vec<char>) -> (r: bool)
    requires
        lo@.len() == up@.len(),
    ensures
        r == ci_at(v@, i as int, lo@, up@),
{
    if i > v.len() || lo.len() > v.len() - i {
        return false;
    }
    let mut k: usize = 0;
    while k < lo.len()
        invariant
            k <= lo@.len() == up@.len(),
            i + lo@.len() <= v@.len(),
            forall|m: int| 0 <= m < k ==> v@[i + m] == lo@[m] || v@[i + m] == up@[m],
            v@.len() <= usize::MAX,
        decreases lo@.len() - k,
    {
        let c = v[i + k];
        if c != lo[k] && c != up[k] {
            assert(v@.subrange(i as int, i + lo@.len())[k as int] == c);
            return false;
        }
        k = k + 1;
    }
    assert forall|m: int| 0 <= m < lo@.len() implies #[trigger] v@.subrange(i as int, i + lo@.len())[m] == lo@[m]
        || v@.subrange(i as int, i + lo@.len())[m] == up@[m] by {
        assert(v@.subrange(i as int, i + lo@.len())[m] == v@[i + m]);
    }
    true
}

fn first_gt_exec(v: &Vec<char>, i: usize) -> (r: Option<usize>)
    ensures
        match r {
            Some(g) => g == first_gt(v@, i as int),
            None => first_gt(v@, i as int) == -1,
        },
{
    let mut k = i;
    while k < v.len() && v[k] != '>'
        invariant
            i <= k,
            first_gt(v@, i as int) == first_gt(v@, k as int),
        decreases v@.len() - k,
    {
        k = k + 1;
    }
    if k < v.len() {
        Some(k)
    } else {
        None
    }
}

fn skip_ws_exec(v: &Vec<char>, i: usize) -> (r: usize)
    requires
        i <= v@.len(),
    ensures
        r == skip_ws(v@, i as int),
{
    let mut k = i;
    while k < v.len() && white_space(v[k])
        invariant
            i <= k <= v@.len(),
            skip_ws(v@, i as int) == skip_ws(v@, k as int),
        decreases v@.len() - k,
    {
        k = k + 1;
    }
    k
}

fn find_ci_exec(v: &Vec<char>, i: usize, lo: &Vec<char>, up: &Vec<char>) -> (r: Option<usize>)
    requires
        lo@.len() == up@.len(),
    ensures
        match r {
            Some(e) => e == find_ci(v@, i as int, lo@, up@),
            None => find_ci(v@, i as int, lo@, up@) == -1,
        },
{
    let mut k = i;
    while k <= v.len() && lo.len() <= v.len() - k && !ci_at_exec(v, k, lo, up)
        invariant
            i <= k,
            lo@.len() == up@.len(),
            find_ci(v@, i as int, lo@, up@) == find_ci(v@, k as int, lo@, up@),
        decreases v@.len() + 1 - k,
    {
        k = k + 1;
    }
    if k <= v.len() && lo.len() <= v.len() - k {
        Some(k)
    } else {
        None
    }
}

struct Marks {
    open_lo: Vec<char>,
    open_up: Vec<char>,
    end_dt_lo: Vec<char>,
    end_dt_up: Vec<char>,
    dd_lo: Vec<char>,
    dd_up: Vec<char>,
    end_dd_lo: Vec<char>,
    end_dd_up: Vec<char>,
}

impl Marks {
    spec fn wf(&self) -> bool {
        &&& self.open_lo@ == "<dt"@ && self.open_up@ == "<DT"@
        &&& self.end_dt_lo@ == "</dt>"@ && self.end_dt_up@ == "</DT>"@
        &&& self.dd_lo@ == "<dd"@ && self.dd_up@ == "<DD"@
        &&& self.end_dd_lo@ == "</dd>"@ && self.end_dd_up@ == "</DD>"@
    }

    fn new() -> (r: Marks)
        ensures
            r.wf(),
    {
        Marks {
            open_lo: chars_of("<dt"),
            open_up: chars_of("<DT"),
            end_dt_lo: chars_of("</dt>"),
            end_dt_up: chars_of("</DT>"),
            dd_lo: chars_of("<dd"),
            dd_up: chars_of("<DD"),
            end_dd_lo: chars_of("</dd>"),
            end_dd_up: chars_of("</DD>"),
        }
    }
}

proof fn lemma_mark_lengths()
    ensures
        "<dt"@.len() == 3 && "<DT"@.len() == 3,
        "</dt>"@.len() == 5 && "</DT>"@.len() == 5,
        "<dd"@.len() == 3 && "<DD"@.len() == 3,
        "</dd>"@.len() == 5 && "</DD>"@.len() == 5,
{
    reveal_strlit("<dt");
    reveal_strlit("<DT");
    reveal_strlit("</dt>");
    reveal_strlit("</DT>");
    reveal_strlit("<dd");
    reveal_strlit("<DD");
    reveal_strlit("</dd>");
    reveal_strlit("</DD>");
}

fn tail_at_exec(v: &Vec<char>, j: usize, mk: &Marks) -> (r: Option<(usize, usize, usize)>)
    requires
        mk.wf(),
        j <= v@.len(),
    ensures
        match r {
            Some(t) => tail_at(v@, j as int) == Some((t.0 as int, t.1 as int, t.2 as int)),
            None => tail_at(v@, j as int) is None,
        },
{
    proof {
        lemma_mark_lengths();
    }
    if !ci_at_exec(v, j, &mk.end_dt_lo, &mk.end_dt_up) {
        return None;
    }
    let n = v.len();
    let w = skip_ws_exec(v, j + 5);
    if !ci_at_exec(v, w, &mk.dd_lo, &mk.dd_up) {
        return None;
    }
    match first_gt_exec(v, w + 3) {
        None => None,
        Some(g) => {
            proof {
                lemma_first_gt(v@, w + 3);
            }
            match find_ci_exec(v, g + 1, &mk.end_dd_lo, &mk.end_dd_up) {
                None => None,
                Some(e) => {
                    proof {
                        lemma_find_ci(v@, g + 1, "</dd>"@, "</DD>"@);
                    }
                    Some((g + 1, e, e + 5))
                },
            }
        },
    }
}

fn label_end_exec(v: &Vec<char>, j: usize, mk: &Marks) -> (r: Option<(usize, (usize, usize, usize))>)
    requires
        mk.wf(),
        j <= v@.len(),
    ensures
        match r {
            Some((je, t)) => label_end(v@, j as int) == Some((je as int, (t.0 as int, t.1 as int, t.2 as int))),
            None => label_end(v@, j as int) is None,
        },
{
    let mut k = j;
    loop
        invariant
            j <= k <= v@.len(),
            mk.wf(),
            label_end(v@, j as int) == label_end(v@, k as int),
        decreases v@.len() - k,
    {
        match tail_at_exec(v, k, mk) {
            Some(t) => {
                return Some((k, t));
            },
            None => {
                if k == v.len() {
                    return None;
                }
                k = k + 1;
            },
        }
    }
}

fn match_at_exec(v: &Vec<char>, s: usize, mk: &Marks) -> (r: Option<(usize, usize, usize, usize, usize)>)
    requires
        mk.wf(),
        s <= v@.len(),
    ensures
        match r {
            Some(m) => match_at(v@, s as int) == Some((m.0 as int, m.1 as int, m.2 as int, m.3 as int, m.4 as int)),
            None => match_at(v@, s as int) is None,
        },
{
    proof {
        lemma_mark_lengths();
    }
    if !ci_at_exec(v, s, &mk.open_lo, &mk.open_up) {
        return None;
    }
    let n = v.len();
    match first_gt_exec(v, s + 3) {
        None => None,
        Some(g) => {
            proof {
                lemma_first_gt(v@, s + 3);
            }
            match label_end_exec(v, g + 1, mk) {
                Some((je, t)) => Some((g + 1, je, t.0, t.1, t.2)),
                None => None,
            }
        },
    }
}

/// A pair's label as stored: cleaned, one trailing colon dropped, white
/// space runs collapsed, lowercased.
pub open spec fn profile_label(raw: Seq<char>) -> Seq<char> {
    let c = clean_spec(raw);
    let stripped = if c.len() > 0 && c.last() == ':' {
        c.drop_last()
    } else {
        c
    };
    lowercase_of(run_pass(Pass::Spaces, stripped))
}

/// The pairs read into an insertion-ordered map: a pair whose label or
/// value cleans to nothing is skipped; a repeated label keeps its first
/// place and takes the later value.
pub open spec fn pairs_map(caps: Seq<(Seq<char>, Seq<char>)>) -> Seq<(Seq<char>, Seq<char>)>
    decreases caps.len(),
{
    if caps.len() == 0 {
        Seq::empty()
    } else {
        let prev = pairs_map(caps.drop_last());
        let label = profile_label(caps.last().0);
        let value = clean_spec(caps.last().1);
        if label.len() > 0 && value.len() > 0 {
            entries_insert(prev, label, value)
        } else {
            prev
        }
    }
}

fn label_of(raw: &Vec<char>) -> (r: String)
    ensures
        r@ == profile_label(raw@),
{
    let raw_text = string_of(raw);
    let c = clean(raw_text.as_str());
    let mut cv = chars_of(c.as_str());
    if cv.len() > 0 && cv[cv.len() - 1] == ':' {
        cv.pop();
    }
    let spaced = pass_exec(Pass::Spaces, &cv);
    let st = string_of(&spaced);
    to_lower(st.as_str())
}

/// The label/value pairs of a profile page, flattened to text.
pub fn parse_dt_dd(html: &str) -> (r: IndexMap<String, String>)
    ensures
        text_map_entries(r) == pairs_map(captures_from(html@, 0)),
{
    let v = chars_of(html);
    let mk = Marks::new();
    let mut out = text_map_new();
    let ghost h = v@;
    let ghost mut done: Seq<(Seq<char>, Seq<char>)> = Seq::empty();
    let mut p: usize = 0;
    while p < v.len()
        invariant
            mk.wf(),
            h == v@,
            v@ == html@,
            p <= v@.len(),
            done + captures_from(h, p as int) == captures_from(h, 0),
            text_map_entries(out) == pairs_map(done),
        decreases v@.len() - p,
    {
        proof {
            lemma_match_at(h, p as int);
        }
        match match_at_exec(&v, p, &mk) {
            Some(m) => {
                let lraw = sub_chars(&v, m.0, m.1);
                let vraw = sub_chars(&v, m.2, m.3);
                let label = label_of(&lraw);
                let value_text = string_of(&vraw);
                let value = clean(value_text.as_str());
                let ghost pair = (lraw@, vraw@);
                proof {
                    assert(captures_from(h, p as int) == seq![pair] + captures_from(h, m.4 as int));
                    assert(done.push(pair) + captures_from(h, m.4 as int) =~= done + captures_from(h, p as int));
                    assert(done.push(pair).drop_last() =~= done);
                    done = done.push(pair);
                }
                if label.as_str().unicode_len() > 0 && value.as_str().unicode_len() > 0 {
                    text_map_insert(&mut out, label, value);
                }
                p = m.4;
            },
            None => {
                p = p + 1;
            },
        }
    }
    proof {
        assert(captures_from(h, p as int) =~= Seq::<(Seq<char>, Seq<char>)>::empty());
        assert(done + Seq::<(Seq<char>, Seq<char>)>::empty() =~= done);
    }
    out
}

/// The profile facts among a page's pairs, by their labels.
pub open spec fn facts_from(pairs: Seq<(Seq<char>, Seq<char>)>, f: ElectorateProfileFacts) -> bool {
    &&& crate::collections::opt_text(f.name_derivation) == entries_get(pairs, "name derivation"@)
    &&& crate::collections::opt_text(f.location) == entries_get(pairs, "location description"@)
    &&& crate::collections::opt_text(f.area) == entries_get(pairs, "area"@)
    &&& crate::collections::opt_text(f.gazetted) == entries_get(pairs, "date this name and boundary was gazetted"@)
    &&& crate::collections::opt_text(f.first_contested) == entries_get(pairs, "first election this name was used at"@)
    &&& crate::collections::opt_text(f.demographic) == entries_get(pairs, "demographic rating"@)
}

/// The facts of a profile page.
pub fn profile_facts(html: &str) -> (r: ElectorateProfileFacts)
    ensures
        facts_from(pairs_map(captures_from(html@, 0)), r),
{
    let pairs = parse_dt_dd(html);
    ElectorateProfileFacts {
        name_derivation: text_map_get(&pairs, "name derivation"),
        location: text_map_get(&pairs, "location description"),
        area: text_map_get(&pairs, "area"),
        gazetted: text_map_get(&pairs, "date this name and boundary was gazetted"),
        first_contested: text_map_get(&pairs, "first election this name was used at"),
        demographic: text_map_get(&pairs, "demographic rating"),
    }
}

// ---------------------------------------------------------------------------
// Enrolment
// ---------------------------------------------------------------------------

/// What `str::parse::<i64>` accepts: an optional sign, then one or more
/// ASCII digits whose value fits.
pub open spec fn parsed_i64(s: Seq<char>) -> Option<i64> {
    let signed = s.len() > 0 && (s[0] == '+' || s[0] == '-');
    let body = if signed {
        s.drop_first()
    } else {
        s
    };
    let magnitude = crate::tvfy::digits_value(body);
    let value = if s.len() > 0 && s[0] == '-' {
        -magnitude
    } else {
        magnitude
    };
    if body.len() > 0 && crate::aph::all_digits(body) && i64::MIN <= value <= i64::MAX {
        Some(value as i64)
    } else {
        None
    }
}

pub fn parse_i64(text: &str) -> (r: Option<i64>)
    ensures
        r == parsed_i64(text@),
{
    let v = chars_of(text);
    let n = v.len();
    let signed = n > 0 && (v[0] == '+' || v[0] == '-');
    let negative = n > 0 && v[0] == '-';
    let start: usize = if signed {
        1
    } else {
        0
    };
    let ghost body = v@.skip(start as int);
    proof {
        if signed {
            assert(body =~= v@.drop_first());
        } else {
            assert(body =~= v@);
        }
    }
    if start >= n {
        return None;
    }
    let limit: u64 = if negative {
        9223372036854775808
    } else {
        9223372036854775807
    };
    let mut acc: u64 = 0;
    let mut i: usize = start;
    while i < n
        invariant
            start <= i <= n == v@.len(),
            start < n,
            v@ == text@,
            body == v@.skip(start as int),
            crate::aph::all_digits(body.take(i - start)),
            acc == crate::tvfy::digits_value(body.take(i - start)),
            acc <= limit,
            limit == (if negative {
                9223372036854775808u64
            } else {
                9223372036854775807u64
            }),
            negative == (v@[0] == '-'),
            parsed_i64(text@) == (if body.len() > 0 && crate::aph::all_digits(body) && (if negative {
                -crate::tvfy::digits_value(body)
            } else {
                crate::tvfy::digits_value(body)
            }) >= i64::MIN && (if negative {
                -crate::tvfy::digits_value(body)
            } else {
                crate::tvfy::digits_value(body)
            }) <= i64::MAX {
                Some((if negative {
                    -crate::tvfy::digits_value(body)
                } else {
                    crate::tvfy::digits_value(body)
                }) as i64)
            } else {
                None
            }),
        decreases n - i,
    {
        let c = v[i];
        let ghost k = (i - start) as int;
        proof {
            assert(body.take(k + 1).drop_last() =~= body.take(k));
            assert(body[k] == c);
            assert(body.take(k + 1).last() == c);
        }
        if !('0' <= c && c <= '9') {
            proof {
                assert(!crate::text::is_ascii_digit(body[k]));
                assert(!crate::aph::all_digits(body));
            }
            return None;
        }
        let d: u64 = (c as u32 - 48) as u64;
        if acc > (limit - d) / 10 {
            proof {
                assert(acc * 10 + d > limit) by (nonlinear_arith)
                    requires
                        acc > (limit - d) / 10,
                        d <= 9,
                        d <= limit,
                ;
                assert(crate::tvfy::digits_value(body.take(k + 1)) == acc * 10 + d);
                if crate::aph::all_digits(body) {
                    crate::tvfy::lemma_prefix_value_le(body, k + 1);
                    assert(crate::tvfy::digits_value(body) > limit);
                }
            }
            return None;
        }
        proof {
            assert(acc * 10 + d <= limit) by (nonlinear_arith)
                requires
                    acc <= (limit - d) / 10,
                    d <= 9,
                    d <= limit,
            ;
            assert(crate::aph::all_digits(body.take(k + 1)));
        }
        acc = acc * 10 + d;
        i = i + 1;
    }
    proof {
        assert(body.take(body.len() as int) =~= body);
    }
    if negative {
        if acc == 9223372036854775808 {
            Some(-9223372036854775807 - 1)
        } else {
            let a: i64 = acc as i64;
            Some(-a)
        }
    } else {
        Some(acc as i64)
    }
}

/// The enrolment figure a row gives: its `Enrolment` cell, or failing that
/// its `CloseOfRollsEnrolment` cell, read as a whole number once trimmed;
/// 0 when neither reads.
pub open spec fn enrolment_value(row: Seq<(Seq<char>, Seq<char>)>) -> int {
    let cell = match entries_get(row, "Enrolment"@) {
        Some(v) => Some(v),
        None => entries_get(row, "CloseOfRollsEnrolment"@),
    };
    match cell {
        Some(v) => match parsed_i64(trim_seq(v)) {
            Some(n) => n as int,
            None => 0,
        },
        None => 0,
    }
}

/// The seat name a row gives, lowercased (empty without one).
pub open spec fn enrolment_name(row: Seq<(Seq<char>, Seq<char>)>) -> Seq<char> {
    match entries_get(row, "DivisionNm"@) {
        Some(v) => lowercase_of(v),
        None => Seq::empty(),
    }
}

/// Rows with a name and a positive figure, by lowercased seat name; a
/// repeated name keeps its first place and takes the later figure.
pub open spec fn enrolment_fold(rows: Seq<Seq<(Seq<char>, Seq<char>)>>) -> Seq<(Seq<char>, i64)>
    decreases rows.len(),
{
    if rows.len() == 0 {
        Seq::empty()
    } else {
        let prev = enrolment_fold(rows.drop_last());
        let name = enrolment_name(rows.last());
        let value = enrolment_value(rows.last());
        if name.len() > 0 && value > 0 {
            entries_insert(prev, name, value as i64)
        } else {
            prev
        }
    }
}

/// The rows of the CSV body after the title line, as header-to-cell
/// entries.
pub open spec fn enrolment_rows(csv: Seq<char>) -> Seq<Seq<(Seq<char>, Seq<char>)>> {
    let lines = crate::aec::csv_lines(crate::aec::after_title(csv));
    crate::aec::csv_records(lines).map_values(
        |rec: Seq<Seq<char>>| crate::aec::row_entries(crate::aec::csv_fields(lines[0]), rec),
    )
}

fn enrolment_of_row(row: &crate::aec::AecRow) -> (r: (String, i64))
    ensures
        r.0@ == enrolment_name(text_map_entries(*row)),
        r.1 == enrolment_value(text_map_entries(*row)),
{
    let name = match text_map_get(row, "DivisionNm") {
        Some(n) => to_lower(n.as_str()),
        None => {
            proof {
                reveal_strlit("");
                assert(""@ =~= Seq::<char>::empty());
            }
            crate::text::owned("")
        },
    };
    let cell = match text_map_get(row, "Enrolment") {
        Some(v) => Some(v),
        None => text_map_get(row, "CloseOfRollsEnrolment"),
    };
    let value = match cell {
        Some(v) => {
            let t = crate::text::trim(v.as_str());
            match parse_i64(t.as_str()) {
                Some(n) => n,
                None => 0,
            }
        },
        None => 0,
    };
    (name, value)
}

/// Enrolment per seat from the AEC's enrolment download: the title line is
/// skipped and each row with a seat name and a positive figure recorded
/// under the lowercased name.
pub fn enrolment_table(csv: &str) -> (r: IndexMap<String, i64>)
    ensures
        id_map_entries(r) == enrolment_fold(enrolment_rows(csv@)),
{
    let body = crate::aec::body_after_title(csv);
    let rows = match crate::aec::parse_csv(body.as_str()) {
        Ok(rows) => rows,
        Err(_) => Vec::new(),
    };
    let ghost all = enrolment_rows(csv@);
    assert(rows@.len() == all.len());
    let mut out = id_map_new();
    let mut i: usize = 0;
    while i < rows.len()
        invariant
            i <= rows@.len() == all.len(),
            forall|k: int| 0 <= k < rows@.len() ==> text_map_entries(#[trigger] rows@[k]) == all[k],
            id_map_entries(out) == enrolment_fold(all.take(i as int)),
        decreases rows@.len() - i,
    {
        let (name, value) = enrolment_of_row(&rows[i]);
        proof {
            assert(all.take(i + 1).drop_last() =~= all.take(i as int));
            assert(all.take(i + 1).last() == all[i as int]);
        }
        if name.as_str().unicode_len() > 0 && value > 0 {
            id_map_insert(&mut out, name, value);
        }
        i = i + 1;
    }
    assert(all.take(all.len() as int) =~= all);
    out
}

/// `{results host}/{event}/Website/Downloads/GeneralEnrolmentByDivisionDownload-{event}.csv`.
pub fn enrolment_url(host: &str, event_id: &str) -> (r: String)
    ensures
        r@ == host@ + "/"@ + event_id@ + "/Website/Downloads/GeneralEnrolmentByDivisionDownload-"@ + event_id@
            + ".csv"@,
{
    let a = concat3(host, "/", event_id);
    let b = concat3(a.as_str(), "/Website/Downloads/GeneralEnrolmentByDivisionDownload-", event_id);
    crate::text::concat2(b.as_str(), ".csv")
}

/// `raw/aec/{event}/GeneralEnrolmentByDivisionDownload.csv`.
pub fn enrolment_raw_key(event_id: &str) -> (r: String)
    ensures
        r@ == "raw/aec/"@ + event_id@ + "/GeneralEnrolmentByDivisionDownload.csv"@,
{
    concat3("raw/aec/", event_id, "/GeneralEnrolmentByDivisionDownload.csv")
}

/// The profile stored for an electorate: when it was stored, the facts of
/// its page and its seat's enrolment (looked up by lowercased name).
pub fn build_profile(stored_at: String, html: &str, electorate: &Electorate, enrolment: &IndexMap<String, i64>) -> (r: ElectorateProfile)
    ensures
        r.stored_at == stored_at,
        facts_from(pairs_map(captures_from(html@, 0)), r.profile),
        r.enrolment == entries_get(id_map_entries(*enrolment), lowercase_of(electorate.name@)),
{
    let profile = profile_facts(html);
    let name = to_lower(electorate.name.as_str());
    let enrolment = id_map_get(enrolment, name.as_str());
    ElectorateProfile { stored_at, profile, enrolment }
}

/// A profile sync over a store with no electorates yet.
#[derive(Debug, Clone, Copy, PartialEq, Eq, Structural)]
pub struct NoElectorates;

impl NoElectorates {
    pub fn message(&self) -> (r: &'static str)
        ensures
            r@ == "aec-profiles: no electorates in store yet"@,
    {
        "aec-profiles: no electorates in store yet"
    }
}

/// Profiles are fetched for the stored electorates; with none stored yet
/// the sync is an error, not an empty success.
pub fn check_electorates(count: usize) -> (r: Result<(), NoElectorates>)
    ensures
        r is Err <==> count == 0,
{
    if count == 0 {
        Err(NoElectorates)
    } else {
        Ok(())
    }
}

/// The failure count after one more failed page, and whether the sync
/// stops there.
pub open spec fn page_failure_step(failed: u32) -> (u32, bool) {
    let next: u32 = if failed < u32::MAX {
        (failed + 1) as u32
    } else {
        failed
    };
    (next, next >= MAX_PAGE_FAILURES)
}

/// A sync over pages whose fetches succeed or fail as `outcomes` says, from
/// page `i` on with `failed` failures so far: how many pages it tries, and
/// whether it stops on too many failures.
pub open spec fn page_run(failed: u32, outcomes: Seq<bool>, i: nat) -> (nat, bool)
    decreases outcomes.len() - i,
{
    if i >= outcomes.len() {
        (i, false)
    } else if outcomes[i as int] {
        page_run(failed, outcomes, i + 1)
    } else if page_failure_step(failed).1 {
        (i + 1, true)
    } else {
        page_run(page_failure_step(failed).0, outcomes, i + 1)
    }
}

proof fn lemma_page_run(failed: u32, outcomes: Seq<bool>, i: nat)
    requires
        i <= outcomes.len(),
        failed == crate::run::failed_count(outcomes.take(i as int)),
        failed < MAX_PAGE_FAILURES,
    ensures
        i <= page_run(failed, outcomes, i).0 <= outcomes.len(),
        page_run(failed, outcomes, i).1 <==> crate::run::failed_count(
            outcomes.take(page_run(failed, outcomes, i).0 as int),
        ) >= MAX_PAGE_FAILURES,
        page_run(failed, outcomes, i).1 ==> !outcomes[page_run(failed, outcomes, i).0 - 1],
        !page_run(failed, outcomes, i).1 ==> page_run(failed, outcomes, i).0 == outcomes.len(),
    decreases outcomes.len() - i,
{
    if i < outcomes.len() {
        let next = outcomes.take((i + 1) as int);
        assert(next.drop_last() =~= outcomes.take(i as int));
        assert(next.last() == outcomes[i as int]);
        if outcomes[i as int] {
            lemma_page_run(failed, outcomes, i + 1);
        } else if !page_failure_step(failed).1 {
            lemma_page_run(page_failure_step(failed).0, outcomes, i + 1);
        }
    }
}

/// However the pages answer, a profile sync stops on the tenth failed page
/// and only there: it aborts exactly when ten of the pages it tried failed,
/// the last of them being the one it stopped on; otherwise it tries every
/// page.
pub proof fn law_page_failures_stop_the_sync(outcomes: Seq<bool>)
    ensures
        page_run(0, outcomes, 0).0 <= outcomes.len(),
        page_run(0, outcomes, 0).1 <==> crate::run::failed_count(
            outcomes.take(page_run(0, outcomes, 0).0 as int),
        ) >= MAX_PAGE_FAILURES,
        page_run(0, outcomes, 0).1 ==> !outcomes[page_run(0, outcomes, 0).0 - 1],
        !page_run(0, outcomes, 0).1 ==> page_run(0, outcomes, 0).0 == outcomes.len(),
{
    assert(outcomes.take(0) =~= Seq::<bool>::empty());
    lemma_page_run(0, outcomes, 0);
}

/// Count one more failed page: the new count, and whether the sync stops.
pub fn after_page_failure(failed: u32) -> (r: (u32, bool))
    ensures
        r.0 == if failed < u32::MAX { failed + 1 } else { failed as int },
        r.1 == (r.0 >= MAX_PAGE_FAILURES),
        r == page_failure_step(failed),
{
    let next = if failed < u32::MAX {
        failed + 1
    } else {
        failed
    };
    (next, next >= MAX_PAGE_FAILURES)
}

} // verus!
