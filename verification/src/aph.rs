//! Bills before the federal parliament, shaped from the ParlWork list and
//! detail records behind APH's own bills list.

use crate::html::{in_class, is_hex_digit, lemma_run_len_bounds, run_len, strip_html, strip_html_spec, CharClass};
use crate::schema::{Bill, BillLinks, BillRaiser, House, TimelineStep};
use crate::sorting::{is_permutation, ordered_by, sorted_by};
use crate::text::{
    chars_of, concat2, concat3, has_prefix, is_ascii_digit, is_ascii_lower, is_white_space,
    lowercase_of, owned, split_chars, split_seq, string_of, sub_chars, to_lower, to_upper_ascii,
    trim_chars, trim_seq, upper_ascii, views_of, white_space,
};
use crate::text::string_views;
use vstd::prelude::*;

verus! {

/// One row of the ParlWork bills list.
#[derive(Debug, Clone)]
pub struct ParlWorkBill {
    pub id: Option<String>,
    pub title: Option<String>,
    pub formatted_originating_chamber: Option<String>,
    pub status: Option<String>,
    pub summary: Option<String>,
    pub last_updated_date_time: Option<String>,
}

#[derive(Debug, Clone)]
pub struct ParlWorkPerson {
    pub display_name: Option<String>,
    pub id: Option<String>,
}

#[derive(Debug, Clone)]
pub struct ParlWorkDetail {
    pub bill: Option<ParlWorkDetailBill>,
}

#[derive(Debug, Clone)]
pub struct ParlWorkDetailBill {
    pub parl_info_url: Option<String>,
    pub sponsors: Option<Vec<ParlWorkPerson>>,
    pub movers: Option<Vec<ParlWorkPerson>>,
    pub grouped_progress_states: Option<Vec<ParlWorkProgressGroup>>,
}

#[derive(Debug, Clone)]
pub struct ParlWorkProgressGroup {
    pub formatted_chamber: Option<String>,
    pub progress_states: Option<Vec<ParlWorkProgressState>>,
}

#[derive(Debug, Clone)]
pub struct ParlWorkProgressState {
    pub description: Option<String>,
    pub update_date: Option<String>,
}

/// The ParlWork list and detail requests present a browser user agent: the
/// APH firewall refuses every other one.
pub const BROWSER_UA: &'static str = "Mozilla/5.0 (Macintosh; Intel Mac OS X 10_15_7) AppleWebKit/537.36 (KHTML, like Gecko) Chrome/127.0.0.0 Safari/537.36";

pub const PAGE_SIZE: usize = 100;

pub const MAX_PAGES: usize = 10;

pub open spec fn opt_view(o: Option<String>) -> Option<Seq<char>> {
    match o {
        Some(s) => Some(s@),
        None => None,
    }
}

pub open spec fn or_empty(o: Option<String>) -> Seq<char> {
    match o {
        Some(s) => s@,
        None => Seq::empty(),
    }
}

/// The official bill page for an id.
pub open spec fn aph_link(id: Seq<char>) -> Seq<char> {
    "https://www.aph.gov.au/Parliamentary_Business/Bills_Legislation/Bills_Search_Results/Result?bId="@
        + id
}

/// A list record as a bill: markup stripped from the prose, the Senate
/// recognised as the originating chamber by name (anything else is the
/// House), an absent or empty summary left absent, an absent or empty status
/// read as "Before parliament", and the official page linked.
pub open spec fn bill_from_list(item: ParlWorkBill, parliament: i64, b: Bill) -> bool {
    &&& b.id@ == or_empty(item.id)
    &&& b.title@ == (match item.title {
        Some(t) => strip_html_spec(t@),
        None => Seq::empty(),
    })
    &&& b.parliament == parliament
    &&& b.chamber == (if lowercase_of(or_empty(item.formatted_originating_chamber)) == "senate"@ {
        House::Senate
    } else {
        House::Representatives
    })
    &&& b.bill_type is None && b.sponsor is None && b.portfolio is None && b.ai_summary is None
    &&& opt_view(b.summary) == (match item.summary {
        Some(s) => if s@.len() > 0 {
            Some(strip_html_spec(s@))
        } else {
            None
        },
        None => None,
    })
    &&& b.status@ == (match item.status {
        Some(s) => if s@.len() > 0 {
            strip_html_spec(s@)
        } else {
            "Before parliament"@
        },
        None => "Before parliament"@,
    })
    &&& b.timeline@.len() == 0
    &&& opt_view(b.links.aph) == Some(aph_link(or_empty(item.id)))
    &&& b.links.text is None && b.links.em is None && b.links.parlinfo is None
    &&& opt_view(b.list_updated) == opt_view(item.last_updated_date_time)
    &&& b.sponsors@.len() == 0 && b.movers@.len() == 0 && b.division_ids@.len() == 0
}

fn copy_opt(o: &Option<String>) -> (r: Option<String>)
    ensures
        opt_view(r) == opt_view(*o),
{
    match o {
        Some(s) => Some(owned(s.as_str())),
        None => None,
    }
}

fn or_empty_exec(o: &Option<String>) -> (r: String)
    ensures
        r@ == or_empty(*o),
{
    match o {
        Some(s) => owned(s.as_str()),
        None => String::new(),
    }
}

pub fn to_bill(item: &ParlWorkBill, parliament: i64) -> (b: Bill)
    ensures
        bill_from_list(*item, parliament, b),
{
    let id = or_empty_exec(&item.id);
    let title = match &item.title {
        Some(t) => strip_html(t.as_str()),
        None => String::new(),
    };
    let chamber_text = or_empty_exec(&item.formatted_originating_chamber);
    let lowered = to_lower(chamber_text.as_str());
    let chamber = if crate::text::str_eq(lowered.as_str(), "senate") {
        House::Senate
    } else {
        House::Representatives
    };
    let summary = match &item.summary {
        Some(s) => if chars_of(s.as_str()).len() > 0 {
            Some(strip_html(s.as_str()))
        } else {
            None
        },
        None => None,
    };
    let status = match &item.status {
        Some(s) => if chars_of(s.as_str()).len() > 0 {
            strip_html(s.as_str())
        } else {
            owned("Before parliament")
        },
        None => owned("Before parliament"),
    };
    let link = concat2(
        "https://www.aph.gov.au/Parliamentary_Business/Bills_Legislation/Bills_Search_Results/Result?bId=",
        id.as_str(),
    );
    Bill {
        id,
        title,
        parliament,
        chamber,
        bill_type: None,
        sponsor: None,
        portfolio: None,
        summary,
        ai_summary: None,
        status,
        timeline: Vec::new(),
        links: BillLinks { aph: Some(link), text: None, em: None, parlinfo: None },
        list_updated: copy_opt(&item.last_updated_date_time),
        sponsors: Vec::new(),
        movers: Vec::new(),
        division_ids: Vec::new(),
    }
}

/// The fresh list record with the stored type, sponsor, portfolio and AI
/// note.
pub open spec fn merged_bill(existing: Bill, fresh: Bill, r: Bill) -> bool {
    &&& opt_view(r.bill_type) == opt_view(existing.bill_type)
    &&& opt_view(r.sponsor) == opt_view(existing.sponsor)
    &&& opt_view(r.portfolio) == opt_view(existing.portfolio)
    &&& r.ai_summary == existing.ai_summary
    &&& r == (Bill {
        bill_type: r.bill_type,
        sponsor: r.sponsor,
        portfolio: r.portfolio,
        ai_summary: r.ai_summary,
        ..fresh
    })
}

/// A listed bill whose detail fetch fails is still written, from its list
/// record: the list's fields with an empty timeline, and the type, sponsor,
/// portfolio and AI note a stored record already had.
pub proof fn law_failed_detail_still_writes(item: ParlWorkBill, parliament: i64, stored: Option<Bill>, listed: Bill, written: Bill)
    requires
        bill_from_list(item, parliament, listed),
        match stored {
            Some(e) => merged_bill(e, listed, written),
            None => written == listed,
        },
    ensures
        written.timeline@.len() == 0,
        written.id == listed.id && written.title == listed.title && written.status == listed.status,
        written.links == listed.links && written.list_updated == listed.list_updated,
        stored matches Some(e) ==> opt_view(written.bill_type) == opt_view(e.bill_type) && opt_view(written.sponsor)
            == opt_view(e.sponsor) && opt_view(written.portfolio) == opt_view(e.portfolio) && written.ai_summary
            == e.ai_summary,
{
}

/// `{ ...existing, ...fresh }` for the fields the list response carries:
/// fresh list fields win; the type, sponsor, portfolio and AI note, which the
/// list never carries, survive from the stored record.
pub fn merge_existing(existing: &Bill, fresh: Bill) -> (r: Bill)
    ensures
        merged_bill(*existing, fresh, r),
{
    let ai_summary = match &existing.ai_summary {
        Some(a) => Some(
            crate::schema::AiText {
                text: a.text.clone(),
                model: a.model.clone(),
                generated_at: a.generated_at.clone(),
            },
        ),
        None => None,
    };
    Bill {
        bill_type: copy_opt(&existing.bill_type),
        sponsor: copy_opt(&existing.sponsor),
        portfolio: copy_opt(&existing.portfolio),
        ai_summary,
        ..fresh
    }
}

// ---------------------------------------------------------------------------
// .NET dates: "/Date(1764075600000+1100)/"
// ---------------------------------------------------------------------------

/// The calendar date (`%Y-%m-%d`, UTC) of a millisecond Unix timestamp, or
/// nothing when chrono cannot represent it; the calendar takes pages to state.
pub uninterp spec fn utc_date(ms: i64) -> Option<Seq<char>>;

/// `DateTime::from_timestamp_millis` then `format("%Y-%m-%d")` from chrono.
#[verifier::external_body]
fn utc_date_of_millis(ms: i64) -> (r: Option<String>)
    ensures
        opt_view(r) == utc_date(ms),
{
    chrono::DateTime::from_timestamp_millis(ms).map(|d| d.format("%Y-%m-%d").to_string())
}

pub open spec fn all_digits(s: Seq<char>) -> bool {
    forall|i: int| 0 <= i < s.len() ==> is_ascii_digit(#[trigger] s[i])
}

pub open spec fn all_decimal(s: Seq<char>) -> bool {
    forall|i: int| 0 <= i < s.len() ==> crate::text::is_decimal_digit(#[trigger] s[i])
}

/// A `/Date(\d+([+-]\d{4})?)/` match at the front of `s`, `\d` any decimal
/// digit: the digits and the offset text (empty when there is none).
pub open spec fn date_at(s: Seq<char>) -> Option<(Seq<char>, Seq<char>)> {
    let d = run_len(s.skip(6), CharClass::Decimal);
    let q = 6 + d;
    if !(has_prefix(s, "/Date("@) && d >= 1) {
        None
    } else if q + 7 <= s.len() && (s[q] == '+' || s[q] == '-') && all_decimal(s.subrange(q + 1, q + 5))
        && s[q + 5] == ')' && s[q + 6] == '/' {
        Some((s.subrange(6, q), s.subrange(q, q + 5)))
    } else if q + 2 <= s.len() && s[q] == ')' && s[q + 1] == '/' {
        Some((s.subrange(6, q), Seq::empty()))
    } else {
        None
    }
}

/// The leftmost match in `s`.
pub open spec fn first_date(s: Seq<char>) -> Option<(Seq<char>, Seq<char>)>
    decreases s.len(),
{
    if s.len() == 0 {
        None
    } else if date_at(s) is Some {
        date_at(s)
    } else {
        first_date(s.drop_first())
    }
}

pub open spec fn digit_value(c: char) -> int {
    (c as u32) - 48
}

/// How many bytes UTF-8 takes for a character.
pub open spec fn utf8_len(c: char) -> int {
    if (c as u32) < 0x80 {
        1
    } else if (c as u32) < 0x800 {
        2
    } else if (c as u32) < 0x10000 {
        3
    } else {
        4
    }
}

pub open spec fn signed(neg: bool, x: int) -> int {
    if neg {
        -x
    } else {
        x
    }
}

/// Minutes east of UTC from the offset text `[+-]dddd`, read as the hours
/// in its first three bytes and the minutes in the sign and the bytes after,
/// each as `str::parse::<i64>` reads it (0 when it does not). With ASCII
/// digits that is `+hhmm`; a non-ASCII digit leaves its part unread.
pub open spec fn offset_minutes(off: Seq<char>) -> int {
    if off.len() < 5 {
        0
    } else {
        let neg = off[0] == '-';
        if utf8_len(off[1]) == 1 {
            let hours = if is_ascii_digit(off[1]) && is_ascii_digit(off[2]) {
                signed(neg, digit_value(off[1]) * 10 + digit_value(off[2]))
            } else {
                0
            };
            let minutes = if is_ascii_digit(off[3]) && is_ascii_digit(off[4]) {
                signed(neg, digit_value(off[3]) * 10 + digit_value(off[4]))
            } else {
                0
            };
            hours * 60 + minutes
        } else if is_ascii_digit(off[2]) && is_ascii_digit(off[3]) && is_ascii_digit(off[4]) {
            signed(neg, digit_value(off[2]) * 100 + digit_value(off[3]) * 10 + digit_value(off[4]))
        } else {
            0
        }
    }
}

/// Cutting the offset text after its third byte splits a character (the
/// original reading panics there).
pub open spec fn offset_splits(off: Seq<char>) -> bool {
    off.len() >= 5 && ((utf8_len(off[1]) == 1 && utf8_len(off[2]) > 1) || utf8_len(off[1]) >= 3)
}

/// The first `/Date(..)/` of a text has an offset that cannot be cut.
pub open spec fn date_splits(value: Option<Seq<char>>) -> bool {
    match value {
        Some(v) => match first_date(v) {
            Some((_, off)) => offset_splits(off),
            None => false,
        },
        None => false,
    }
}

/// No progress state's date text has an offset that cannot be cut.
pub open spec fn states_uncut(states: Seq<ParlWorkProgressState>) -> bool {
    forall|i: int| 0 <= i < states.len() ==> !date_splits(opt_view(#[trigger] states[i].update_date))
}

/// Every date a detail carries can be read.
pub open spec fn detail_dates_uncut(detail: ParlWorkDetail) -> bool {
    match detail.bill {
        None => true,
        Some(inner) => forall|g: int|
            0 <= g < vec_or_empty(inner.grouped_progress_states).len() ==> states_uncut(
                vec_or_empty((#[trigger] vec_or_empty(inner.grouped_progress_states)[g]).progress_states),
            ),
    }
}

/// "/Date(1764075600000+1100)/" → the ISO date in the event's local offset.
/// The timestamp must be ASCII digits that fit `i64`, as must the
/// offset-adjusted timestamp.
pub open spec fn dot_net_date_spec(value: Option<Seq<char>>) -> Option<Seq<char>> {
    match value {
        None => None,
        Some(v) => match first_date(v) {
            None => None,
            Some((digits, off)) => date_value(digits, off),
        },
    }
}

/// The date a matched timestamp and offset stand for.
pub open spec fn date_value(digits: Seq<char>, off: Seq<char>) -> Option<Seq<char>> {
    let ms = crate::html::dec_value(digits);
    let t = ms + offset_minutes(off) * 60_000;
    if !all_digits(digits) || ms > i64::MAX || t > i64::MAX {
        None
    } else {
        utc_date(t as i64)
    }
}

fn digit_run_ok(v: &Vec<char>, i: usize, j: usize) -> (r: bool)
    requires
        i <= j <= v.len(),
    ensures
        r == all_digits(v@.subrange(i as int, j as int)),
{
    let mut k = i;
    while k < j
        invariant
            i <= k <= j <= v.len(),
            forall|x: int| i <= x < k ==> is_ascii_digit(#[trigger] v@[x]),
        decreases j - k,
    {
        if !('0' <= v[k] && v[k] <= '9') {
            assert(v@.subrange(i as int, j as int)[k - i] == v@[k as int]);
            return false;
        }
        k = k + 1;
    }
    assert forall|x: int| 0 <= x < j - i implies is_ascii_digit(
        #[trigger] v@.subrange(i as int, j as int)[x],
    ) by {
        assert(v@.subrange(i as int, j as int)[x] == v@[i + x]);
    }
    true
}

fn decimal_run_ok(v: &Vec<char>, i: usize, j: usize) -> (r: bool)
    requires
        i <= j <= v.len(),
    ensures
        r == all_decimal(v@.subrange(i as int, j as int)),
{
    let mut k = i;
    while k < j
        invariant
            i <= k <= j <= v.len(),
            forall|x: int| i <= x < k ==> crate::text::is_decimal_digit(#[trigger] v@[x]),
        decreases j - k,
    {
        if !crate::text::decimal_digit(v[k]) {
            assert(v@.subrange(i as int, j as int)[k - i] == v@[k as int]);
            return false;
        }
        k = k + 1;
    }
    assert forall|x: int| 0 <= x < j - i implies crate::text::is_decimal_digit(
        #[trigger] v@.subrange(i as int, j as int)[x],
    ) by {
        assert(v@.subrange(i as int, j as int)[x] == v@[i + x]);
    }
    true
}

/// The match at position `i`, as (end of digits, offset present).
fn date_at_exec(v: &Vec<char>, i: usize) -> (r: Option<(usize, bool)>)
    requires
        i <= v.len(),
    ensures
        match r {
            None => date_at(v@.skip(i as int)) is None,
            Some((q, off)) => i + 7 <= q <= v.len() && date_at(v@.skip(i as int)) == Some(
                (
                    v@.subrange(i + 6, q as int),
                    if off {
                        v@.subrange(q as int, q + 5)
                    } else {
                        Seq::<char>::empty()
                    },
                ),
            ) && (off ==> q + 7 <= v.len()) && (off ==> (v@[q as int] == '+' || v@[q as int] == '-')),
        },
{
    let ghost s = v@.skip(i as int);
    let n = v.len();
    if n - i < 7 {
        proof {
            if has_prefix(s, "/Date("@) && run_len(s.skip(6), CharClass::Decimal) >= 1 {
                reveal_strlit("/Date(");
                lemma_run_len_bounds(s.skip(6), CharClass::Decimal);
            }
        }
        return None;
    }
    let head = sub_chars(v, i, i + 6);
    let is_head = crate::text::chars_eq(&head, &chars_of("/Date("));
    proof {
        reveal_strlit("/Date(");
        assert(head@ =~= s.take(6));
    }
    if !is_head {
        return None;
    }
    let q = crate::html::run_end(v, i + 6, CharClass::Decimal);
    proof {
        assert(v@.skip(i + 6) =~= s.skip(6));
        lemma_run_len_bounds(s.skip(6), CharClass::Decimal);
    }
    if q == i + 6 {
        return None;
    }
    proof {
        assert(v@.subrange(i + 6, q as int) =~= s.subrange(6, q - i));
    }
    if n - q >= 7 && (v[q] == '+' || v[q] == '-') && decimal_run_ok(v, q + 1, q + 5) && v[q + 5] == ')'
        && v[q + 6] == '/' {
        proof {
            assert(s[q - i] == v@[q as int]);
            assert(s[q - i + 5] == v@[q + 5]);
            assert(s[q - i + 6] == v@[q + 6]);
            assert(v@.subrange(q + 1, q + 5) =~= s.subrange(q - i + 1, q - i + 5));
            assert(v@.subrange(q as int, q + 5) =~= s.subrange(q - i, q - i + 5));
        }
        return Some((q, true));
    }
    proof {
        if q + 7 <= n {
            assert(s[q - i] == v@[q as int]);
            assert(s[q - i + 5] == v@[q + 5]);
            assert(s[q - i + 6] == v@[q + 6]);
            assert(v@.subrange(q + 1, q + 5) =~= s.subrange(q - i + 1, q - i + 5));
        }
    }
    if n - q >= 2 && v[q] == ')' && v[q + 1] == '/' {
        proof {
            assert(s[q - i] == v@[q as int]);
            assert(s[q - i + 1] == v@[q + 1]);
        }
        return Some((q, false));
    }
    proof {
        if q + 2 <= n {
            assert(s[q - i] == v@[q as int]);
            assert(s[q - i + 1] == v@[q + 1]);
        }
    }
    None
}

/// "/Date(1764075600000+1100)/" → ISO date in the event's local offset.
pub fn dot_net_date(value: Option<&str>) -> (r: Option<String>)
    requires
        !date_splits(
            match value {
                Some(v) => Some(v@),
                None => None,
            },
        ),
    ensures
        opt_view(r) == dot_net_date_spec(match value {
            Some(v) => Some(v@),
            None => None,
        }),
{
    let text = match value {
        Some(t) => t,
        None => {
            return None;
        },
    };
    let v = chars_of(text);
    let n = v.len();
    let mut p: usize = 0;
    assert(v@.skip(0) =~= v@);
    while p < n
        invariant
            p <= n == v.len(),
            v@ == text@,
            value == Some(text),
            first_date(v@) == first_date(v@.skip(p as int)),
        decreases n - p,
    {
        match date_at_exec(&v, p) {
            Some((q, off)) => {
                proof {
                    assert(first_date(v@) == date_at(v@.skip(p as int)));
                }
                let r = date_from_match(&v, p, q, off);
                proof {
                    let offtext = if off {
                        v@.subrange(q as int, q + 5)
                    } else {
                        Seq::<char>::empty()
                    };
                    assert(first_date(v@) == Some((v@.subrange(p + 6, q as int), offtext)));
                    assert(dot_net_date_spec(Some(text@)) == date_value(v@.subrange(p + 6, q as int), offtext));
                }
                return r;
            },
            None => {
                proof {
                    assert(v@.skip(p as int).drop_first() =~= v@.skip(p + 1));
                }
                p = p + 1;
            },
        }
    }
    assert(v@.skip(p as int).len() == 0);
    None
}

/// An ASCII digit's value, or nothing.
fn ascii_value(c: char) -> (r: Option<i64>)
    ensures
        match r {
            Some(d) => is_ascii_digit(c) && d == digit_value(c),
            None => !is_ascii_digit(c),
        },
{
    if '0' <= c && c <= '9' {
        Some((c as u32 - 48) as i64)
    } else {
        None
    }
}

/// Minutes east of UTC from an offset text `[+-]dddd` at `q`.
fn offset_exec(v: &Vec<char>, q: usize) -> (r: i64)
    requires
        q + 5 <= v.len(),
    ensures
        r as int == offset_minutes(v@.subrange(q as int, q + 5)),
{
    let ghost off = v@.subrange(q as int, q + 5);
    proof {
        assert(off[0] == v@[q as int] && off[1] == v@[q + 1] && off[2] == v@[q + 2]);
        assert(off[3] == v@[q + 3] && off[4] == v@[q + 4]);
    }
    let neg = v[q] == '-';
    if (v[q + 1] as u32) < 0x80 {
        let hours: i64 = match (ascii_value(v[q + 1]), ascii_value(v[q + 2])) {
            (Some(a), Some(b)) => if neg {
                0 - (a * 10 + b)
            } else {
                a * 10 + b
            },
            _ => 0,
        };
        let minutes: i64 = match (ascii_value(v[q + 3]), ascii_value(v[q + 4])) {
            (Some(c), Some(d)) => if neg {
                0 - (c * 10 + d)
            } else {
                c * 10 + d
            },
            _ => 0,
        };
        hours * 60 + minutes
    } else {
        match (ascii_value(v[q + 2]), ascii_value(v[q + 3]), ascii_value(v[q + 4])) {
            (Some(b), Some(c), Some(d)) => if neg {
                0 - (b * 100 + c * 10 + d)
            } else {
                b * 100 + c * 10 + d
            },
            _ => 0,
        }
    }
}

fn utf8_len_exec(c: char) -> (r: u32)
    ensures
        r as int == utf8_len(c),
{
    let u = c as u32;
    if u < 0x80 {
        1
    } else if u < 0x800 {
        2
    } else if u < 0x10000 {
        3
    } else {
        4
    }
}

/// Whether the first `/Date(..)/` of `text` has an offset that cannot be cut.
fn date_text_splits(text: &str) -> (r: bool)
    ensures
        r == date_splits(Some(text@)),
{
    let v = chars_of(text);
    let n = v.len();
    let mut p: usize = 0;
    assert(v@.skip(0) =~= v@);
    while p < n
        invariant
            p <= n == v.len(),
            v@ == text@,
            first_date(v@) == first_date(v@.skip(p as int)),
        decreases n - p,
    {
        match date_at_exec(&v, p) {
            Some((q, off)) => {
                proof {
                    assert(first_date(v@) == date_at(v@.skip(p as int)));
                }
                if !off {
                    return false;
                }
                let ghost offtext = v@.subrange(q as int, q + 5);
                proof {
                    assert(offtext[1] == v@[q + 1] && offtext[2] == v@[q + 2]);
                }
                let a = utf8_len_exec(v[q + 1]);
                let b = utf8_len_exec(v[q + 2]);
                return (a == 1 && b > 1) || a >= 3;
            },
            None => {
                proof {
                    assert(v@.skip(p as int).drop_first() =~= v@.skip(p + 1));
                }
                p = p + 1;
            },
        }
    }
    assert(v@.skip(p as int).len() == 0);
    false
}

fn states_readable(states: &Option<Vec<ParlWorkProgressState>>) -> (r: bool)
    ensures
        r == states_uncut(vec_or_empty(*states)),
{
    match states {
        None => true,
        Some(list) => {
            let mut i: usize = 0;
            while i < list.len()
                invariant
                    i <= list@.len(),
                    vec_or_empty(*states) == list@,
                    forall|k: int| 0 <= k < i ==> !date_splits(opt_view(#[trigger] list@[k].update_date)),
                decreases list.len() - i,
            {
                match &list[i].update_date {
                    Some(u) => {
                        if date_text_splits(u.as_str()) {
                            proof {
                                assert(date_splits(opt_view(list@[i as int].update_date)));
                                assert(vec_or_empty(*states) == list@);
                            }
                            return false;
                        }
                    },
                    None => {},
                }
                i = i + 1;
            }
            true
        },
    }
}

/// Whether every date a detail carries can be read: a date whose offset a
/// byte cut would split (a non-ASCII digit of three or more bytes, or an
/// ASCII one followed by a non-ASCII one) stops the reading outright.
pub fn detail_dates_readable(detail: &ParlWorkDetail) -> (r: bool)
    ensures
        r == detail_dates_uncut(*detail),
{
    match &detail.bill {
        None => true,
        Some(inner) => match &inner.grouped_progress_states {
            None => true,
            Some(gs) => {
                let mut g: usize = 0;
                while g < gs.len()
                    invariant
                        g <= gs@.len(),
                        detail.bill == Some(*inner),
                        vec_or_empty(inner.grouped_progress_states) == gs@,
                        forall|x: int| 0 <= x < g ==> states_uncut(vec_or_empty((#[trigger] gs@[x]).progress_states)),
                    decreases gs.len() - g,
                {
                    if !states_readable(&gs[g].progress_states) {
                        proof {
                            assert(vec_or_empty(inner.grouped_progress_states) == gs@);
                            assert(!states_uncut(vec_or_empty(gs@[g as int].progress_states)));
                        }
                        return false;
                    }
                    g = g + 1;
                }
                true
            },
        },
    }
}

/// The date of the match at `start` whose digits end at `q`.
fn date_from_match(v: &Vec<char>, start: usize, q: usize, off: bool) -> (r: Option<String>)
    requires
        start + 7 <= q <= v.len(),
        off ==> q + 7 <= v.len(),
    ensures
        opt_view(r) == date_value(
            v@.subrange(start + 6, q as int),
            if off {
                v@.subrange(q as int, q + 5)
            } else {
                Seq::<char>::empty()
            },
        ),
{
    let ghost offtext = if off {
        v@.subrange(q as int, q + 5)
    } else {
        Seq::<char>::empty()
    };
    let ghost digits = v@.subrange(start + 6, q as int);
    if !digit_run_ok(v, start + 6, q) {
        return None;
    }
    proof {
        assert forall|x: int| start + 6 <= x < q implies is_ascii_digit(#[trigger] v@[x]) by {
            assert(v@[x] == digits[x - start - 6]);
        }
    }
    // Parse the digits as an i64, refusing what does not fit.
    let mut ms: i64 = 0;
    let mut k = start + 6;
    while k < q
        invariant
            start + 6 <= k <= q <= v.len(),
            digits == v@.subrange(start + 6, q as int),
            forall|x: int| start + 6 <= x < q ==> is_ascii_digit(#[trigger] v@[x]),
            ms as int == crate::html::dec_value(digits.take(k - start - 6)),
            ms >= 0,
        decreases q - k,
    {
        let d = (v[k] as u32 - 48) as i64;
        proof {
            assert(digits.take(k + 1 - start - 6).drop_last() =~= digits.take(k - start - 6));
            assert(digits.take(k + 1 - start - 6).last() == v@[k as int]);
        }
        if ms > (i64::MAX - d) / 10 {
            proof {
                assert(crate::html::dec_value(digits.take(k + 1 - start - 6)) > i64::MAX) by (nonlinear_arith)
                    requires
                        crate::html::dec_value(digits.take(k + 1 - start - 6)) == ms * 10 + d,
                        ms > (i64::MAX - d) / 10,
                        0 <= d <= 9,
                ;
                lemma_dec_prefix_le(digits, k + 1 - start - 6);
            }
            return None;
        }
        ms = ms * 10 + d;
        k = k + 1;
    }
    proof {
        assert(digits.take(q - start - 6) =~= digits);
    }
    let offset: i64 = if off {
        offset_exec(v, q)
    } else {
        0
    };
    proof {
        assert(-(99 * 60 + 99) <= offset_minutes(offtext) <= 99 * 60 + 99 || offtext.len() == 0);
    }
    let shift = offset * 60_000;
    if shift > 0 && ms > i64::MAX - shift {
        return None;
    }
    utc_date_of_millis(ms + shift)
}

proof fn lemma_dec_prefix_le(s: Seq<char>, n: int)
    requires
        0 <= n <= s.len(),
        forall|j: int| 0 <= j < s.len() ==> is_ascii_digit(#[trigger] s[j]),
    ensures
        crate::html::dec_value(s.take(n)) <= crate::html::dec_value(s),
    decreases s.len() - n,
{
    if n < s.len() {
        let t = s.drop_last();
        assert forall|j: int| 0 <= j < t.len() implies is_ascii_digit(#[trigger] t[j]) by {
            assert(t[j] == s[j]);
        }
        lemma_dec_prefix_le(t, n);
        assert(t.take(n) =~= s.take(n));
        lemma_dec_nonneg_local(t);
    } else {
        assert(s.take(n) =~= s);
    }
}

proof fn lemma_dec_nonneg_local(s: Seq<char>)
    requires
        forall|j: int| 0 <= j < s.len() ==> is_ascii_digit(#[trigger] s[j]),
    ensures
        crate::html::dec_value(s) >= 0,
    decreases s.len(),
{
    if s.len() > 0 {
        let t = s.drop_last();
        assert forall|j: int| 0 <= j < t.len() implies is_ascii_digit(#[trigger] t[j]) by {
            assert(t[j] == s[j]);
        }
        lemma_dec_nonneg_local(t);
    }
}

// ---------------------------------------------------------------------------
// Raisers: "ALBANESE, the Hon. Anthony Norman" → "Anthony Albanese"
// ---------------------------------------------------------------------------

/// A character after which a lowercase letter starts a new word.
pub open spec fn is_word_break(c: char, curly: bool) -> bool {
    is_white_space(c) || c == '-' || c == '\'' || (curly && c == '\u{2019}')
}

/// Each lowercase ASCII letter at the start of the text or after a word
/// break capitalised; `curly` counts the typographic apostrophe as a break.
pub open spec fn capitalize_words(s: Seq<char>, curly: bool) -> Seq<char> {
    Seq::new(
        s.len(),
        |i: int|
            if is_ascii_lower(s[i]) && (i == 0 || is_word_break(s[i - 1], curly)) {
                upper_ascii(s[i])
            } else {
                s[i]
            },
    )
}

pub fn capitalize_words_exec(v: &Vec<char>, curly: bool) -> (r: Vec<char>)
    ensures
        r@ == capitalize_words(v@, curly),
{
    let mut out: Vec<char> = Vec::new();
    let mut i: usize = 0;
    while i < v.len()
        invariant
            i <= v.len(),
            out@.len() == i,
            forall|k: int| 0 <= k < i ==> #[trigger] out@[k] == capitalize_words(v@, curly)[k],
        decreases v.len() - i,
    {
        let c = v[i];
        let at_break = i == 0 || {
            let p = v[i - 1];
            white_space(p) || p == '-' || p == '\'' || (curly && p == '\u{2019}')
        };
        if 'a' <= c && c <= 'z' && at_break {
            out.push(to_upper_ascii(c));
        } else {
            out.push(c);
        }
        i = i + 1;
    }
    assert(out@ =~= capitalize_words(v@, curly));
    out
}

/// Length of the run of non-space characters at the front.
pub open spec fn word_len(s: Seq<char>) -> int
    decreases s.len(),
{
    if s.len() > 0 && !is_white_space(s[0]) {
        1 + word_len(s.drop_first())
    } else {
        0
    }
}

pub proof fn lemma_word_len(s: Seq<char>)
    ensures
        0 <= word_len(s) <= s.len(),
        s.len() > 0 && !is_white_space(s[0]) ==> word_len(s) >= 1,
        forall|j: int| 0 <= j < word_len(s) ==> !is_white_space(#[trigger] s[j]),
        word_len(s) < s.len() ==> is_white_space(s[word_len(s)]),
    decreases s.len(),
{
    if s.len() > 0 && !is_white_space(s[0]) {
        let t = s.drop_first();
        lemma_word_len(t);
        assert forall|j: int| 0 <= j < word_len(s) implies !is_white_space(#[trigger] s[j]) by {
            if j > 0 {
                assert(s[j] == t[j - 1]);
            }
        }
        if word_len(s) < s.len() {
            assert(s[word_len(s)] == t[word_len(t)]);
        }
    }
}

/// `str::split_whitespace`: the non-empty runs between white space.
pub open spec fn words(s: Seq<char>) -> Seq<Seq<char>>
    decreases s.len(),
{
    if s.len() == 0 {
        Seq::empty()
    } else if is_white_space(s[0]) {
        words(s.drop_first())
    } else {
        proof {
            lemma_word_len(s);
        }
        seq![s.take(word_len(s))] + words(s.skip(word_len(s)))
    }
}

fn words_exec(v: &Vec<char>) -> (r: Vec<Vec<char>>)
    ensures
        views_of(r@) == words(v@),
{
    let n = v.len();
    let mut out: Vec<Vec<char>> = Vec::new();
    let mut i: usize = 0;
    assert(v@.skip(0) =~= v@);
    while i < n
        invariant
            i <= n == v.len(),
            views_of(out@) + words(v@.skip(i as int)) == words(v@),
        decreases n - i,
    {
        let ghost s = v@.skip(i as int);
        if white_space(v[i]) {
            assert(s.drop_first() =~= v@.skip(i + 1));
            i = i + 1;
        } else {
            let mut j = i;
            while j < n && !white_space(v[j])
                invariant
                    i <= j <= n == v.len(),
                    forall|k: int| i <= k < j ==> !is_white_space(#[trigger] v@[k]),
                decreases n - j,
            {
                j = j + 1;
            }
            proof {
                lemma_word_len(s);
                assert forall|k: int| 0 <= k < j - i implies !is_white_space(#[trigger] s[k]) by {
                    assert(s[k] == v@[i + k]);
                }
                if j < n {
                    assert(s[j - i] == v@[j as int]);
                }
                let w = word_len(s);
                if w < j - i {
                    assert(s[w] == v@[i + w]);
                } else if w > j - i {
                    assert(s[j - i] == v@[j as int]);
                }
                assert(w == j - i);
                assert(s.skip(w) =~= v@.skip(j as int));
                assert(s.take(w) =~= v@.subrange(i as int, j as int));
            }
            let word = sub_chars(v, i, j);
            let ghost o = views_of(out@);
            out.push(word);
            proof {
                assert(views_of(out@) =~= o.push(v@.subrange(i as int, j as int)));
                assert(o.push(v@.subrange(i as int, j as int)) + words(v@.skip(j as int)) =~= o + (seq![
                    v@.subrange(i as int, j as int),
                ] + words(v@.skip(j as int))));
            }
            i = j;
        }
    }
    assert(v@.skip(i as int).len() == 0);
    assert(views_of(out@) + Seq::<Seq<char>>::empty() =~= views_of(out@));
    out
}

/// Forms of address and post-nominals that are not given names.
pub open spec fn is_honorific(lowered: Seq<char>) -> bool {
    let w = if lowered.len() > 0 && lowered.last() == '.' {
        lowered.drop_last()
    } else {
        lowered
    };
    w == "the"@ || w == "hon"@ || w == "hon."@ || w == "sen"@ || w == "senator"@ || w == "dr"@ || w
        == "mr"@ || w == "ms"@ || w == "mrs"@ || w == "mp"@
}

/// The first word that is not an honorific, or nothing.
pub open spec fn first_given(ws: Seq<Seq<char>>) -> Seq<char>
    decreases ws.len(),
{
    if ws.len() == 0 {
        Seq::empty()
    } else if !is_honorific(lowercase_of(ws[0])) {
        ws[0]
    } else {
        first_given(ws.drop_first())
    }
}

fn honorific(word: &Vec<char>) -> (r: bool)
    ensures
        r == is_honorific(lowercase_of(word@)),
{
    let text = string_of(word);
    let lowered = to_lower(text.as_str());
    let mut l = chars_of(lowered.as_str());
    if l.len() > 0 && l[l.len() - 1] == '.' {
        l.pop();
    }
    let w = string_of(&l);
    let t = w.as_str();
    crate::text::str_eq(t, "the") || crate::text::str_eq(t, "hon") || crate::text::str_eq(t, "hon.")
        || crate::text::str_eq(t, "sen") || crate::text::str_eq(t, "senator") || crate::text::str_eq(
        t,
        "dr",
    ) || crate::text::str_eq(t, "mr") || crate::text::str_eq(t, "ms") || crate::text::str_eq(t, "mrs")
        || crate::text::str_eq(t, "mp")
}

fn first_given_exec(ws: &Vec<Vec<char>>) -> (r: Vec<char>)
    ensures
        r@ == first_given(views_of(ws@)),
{
    let ghost wv = views_of(ws@);
    let mut k: usize = 0;
    assert(wv.skip(0) =~= wv);
    while k < ws.len()
        invariant
            k <= ws@.len(),
            wv == views_of(ws@),
            first_given(wv) == first_given(wv.skip(k as int)),
        decreases ws.len() - k,
    {
        assert(wv[k as int] == ws@[k as int]@);
        assert(wv.skip(k as int)[0] == wv[k as int]);
        if !honorific(&ws[k]) {
            return sub_chars(&ws[k], 0, ws[k].len());
        }
        assert(wv.skip(k as int).drop_first() =~= wv.skip(k + 1));
        k = k + 1;
    }
    assert(wv.skip(k as int).len() == 0);
    Vec::new()
}

/// The display name as it reads: markup stripped, split at commas.
pub open spec fn display_parts(p: ParlWorkPerson) -> Seq<Seq<char>> {
    split_seq(
        match p.display_name {
            Some(d) => strip_html_spec(d@),
            None => Seq::empty(),
        },
        ',',
    )
}

/// The raiser's name: the first given name that is not an honorific, then
/// the family name (the part before the first comma) capitalised word by
/// word; post-nominals after a second comma are ignored.
pub open spec fn raiser_name(p: ParlWorkPerson) -> Seq<char> {
    let parts = display_parts(p);
    let family = capitalize_words(lowercase_of(trim_seq(parts[0])), true);
    let given = first_given(words(if parts.len() > 1 {
        parts[1]
    } else {
        Seq::empty()
    }));
    if given.len() == 0 {
        family
    } else if family.len() == 0 {
        given
    } else {
        given + " "@ + family
    }
}

/// "ALBANESE, the Hon. Anthony Norman" → { name: "Anthony Albanese", phid }.
pub fn to_raiser(p: &ParlWorkPerson) -> (r: BillRaiser)
    ensures
        r.name@ == raiser_name(*p),
        opt_view(r.phid) == (match p.id {
            Some(id) => if id@.len() > 0 {
                Some(id@)
            } else {
                None
            },
            None => None,
        }),
        r.slug is None,
{
    let display = match &p.display_name {
        Some(d) => strip_html(d.as_str()),
        None => String::new(),
    };
    let dv = chars_of(display.as_str());
    let parts = split_chars(&dv, ',');
    let ghost pv = views_of(parts@);
    assert(pv[0] == parts@[0]@);
    let family_raw = &parts[0];
    let family_trim = trim_chars(family_raw);
    let family_text = string_of(&family_trim);
    let family_lower = to_lower(family_text.as_str());
    let fl = chars_of(family_lower.as_str());
    let family = capitalize_words_exec(&fl, true);
    let givens_raw: Vec<char> = if parts.len() > 1 {
        assert(pv[1] == parts@[1]@);
        sub_chars(&parts[1], 0, parts[1].len())
    } else {
        Vec::new()
    };
    proof {
        if parts.len() > 1 {
            assert(givens_raw@ =~= pv[1]);
        } else {
            assert(givens_raw@ =~= Seq::<char>::empty());
        }
        assert(family@ == capitalize_words(lowercase_of(trim_seq(pv[0])), true));
    }
    let ws = words_exec(&givens_raw);
    let given = first_given_exec(&ws);
    let name = if given.len() == 0 {
        string_of(&family)
    } else if family.len() == 0 {
        string_of(&given)
    } else {
        let g = string_of(&given);
        let f = string_of(&family);
        concat3(g.as_str(), " ", f.as_str())
    };
    let phid = match &p.id {
        Some(id) => if chars_of(id.as_str()).len() > 0 {
            Some(owned(id.as_str()))
        } else {
            None
        },
        None => None,
    };
    BillRaiser { name, phid, slug: None }
}

// ---------------------------------------------------------------------------
// Detail records: timeline, raisers and the ParlInfo link
// ---------------------------------------------------------------------------

pub open spec fn step_view(t: TimelineStep) -> (Seq<char>, Seq<char>) {
    (t.date@, t.event@)
}

/// One progress state as a timeline step: it needs a date that decodes and a
/// non-empty description, stamped with the chamber where one is named.
pub open spec fn progress_step(state: ParlWorkProgressState, chamber: Option<String>) -> Option<
    (Seq<char>, Seq<char>),
> {
    match dot_net_date_spec(opt_view(state.update_date)) {
        None => None,
        Some(date) => match state.description {
            None => None,
            Some(desc) => if desc@.len() == 0 {
                None
            } else {
                let event = match chamber {
                    Some(c) => if c@.len() > 0 {
                        strip_html_spec(desc@ + " ("@ + c@ + ")"@)
                    } else {
                        strip_html_spec(desc@)
                    },
                    None => strip_html_spec(desc@),
                };
                Some((date, event))
            },
        },
    }
}

pub open spec fn state_steps(states: Seq<ParlWorkProgressState>, chamber: Option<String>) -> Seq<
    (Seq<char>, Seq<char>),
>
    decreases states.len(),
{
    if states.len() == 0 {
        Seq::empty()
    } else {
        let rest = state_steps(states.drop_last(), chamber);
        match progress_step(states.last(), chamber) {
            Some(st) => rest.push(st),
            None => rest,
        }
    }
}

pub open spec fn vec_or_empty<T>(o: Option<Vec<T>>) -> Seq<T> {
    match o {
        Some(v) => v@,
        None => Seq::empty(),
    }
}

/// Every step of every group, in the order ParlWork lists them.
pub open spec fn all_steps(groups: Seq<ParlWorkProgressGroup>) -> Seq<(Seq<char>, Seq<char>)>
    decreases groups.len(),
{
    if groups.len() == 0 {
        Seq::empty()
    } else {
        all_steps(groups.drop_last()) + state_steps(
            vec_or_empty(groups.last().progress_states),
            groups.last().formatted_chamber,
        )
    }
}

pub open spec fn raiser_view(r: BillRaiser) -> (Seq<char>, Option<Seq<char>>, Option<Seq<char>>) {
    (r.name@, opt_view(r.phid), opt_view(r.slug))
}

pub open spec fn raiser_spec(p: ParlWorkPerson) -> (Seq<char>, Option<Seq<char>>, Option<Seq<char>>) {
    (
        raiser_name(p),
        match p.id {
            Some(id) => if id@.len() > 0 {
                Some(id@)
            } else {
                None
            },
            None => None,
        },
        None,
    )
}

/// Each person as a raiser, those whose name comes out empty dropped.
pub open spec fn raisers_of(people: Seq<ParlWorkPerson>) -> Seq<
    (Seq<char>, Option<Seq<char>>, Option<Seq<char>>),
>
    decreases people.len(),
{
    if people.len() == 0 {
        Seq::empty()
    } else {
        let rest = raisers_of(people.drop_last());
        if raiser_name(people.last()).len() > 0 {
            rest.push(raiser_spec(people.last()))
        } else {
            rest
        }
    }
}

fn raisers_exec(people: &Option<Vec<ParlWorkPerson>>) -> (r: Vec<BillRaiser>)
    ensures
        r@.map_values(|x: BillRaiser| raiser_view(x)) == raisers_of(vec_or_empty(*people)),
{
    let mut out: Vec<BillRaiser> = Vec::new();
    match people {
        None => {
            assert(out@.map_values(|x: BillRaiser| raiser_view(x)) =~= Seq::<
                (Seq<char>, Option<Seq<char>>, Option<Seq<char>>),
            >::empty());
            out
        },
        Some(list) => {
            let mut i: usize = 0;
            while i < list.len()
                invariant
                    i <= list@.len(),
                    out@.map_values(|x: BillRaiser| raiser_view(x)) == raisers_of(list@.take(i as int)),
                decreases list.len() - i,
            {
                let r = to_raiser(&list[i]);
                proof {
                    assert(list@.take(i + 1).drop_last() =~= list@.take(i as int));
                    assert(list@.take(i + 1).last() == list@[i as int]);
                }
                let ghost before = out@;
                if chars_of(r.name.as_str()).len() > 0 {
                    out.push(r);
                    assert(out@.map_values(|x: BillRaiser| raiser_view(x)) =~= before.map_values(
                        |x: BillRaiser| raiser_view(x),
                    ).push(raiser_view(r)));
                }
                i = i + 1;
            }
            assert(list@.take(list.len() as int) =~= list@);
            out
        },
    }
}

fn state_steps_exec(
    states: &Option<Vec<ParlWorkProgressState>>,
    chamber: &Option<String>,
    steps: &mut Vec<TimelineStep>,
    dates: &mut Vec<String>,
)
    requires
        old(dates)@.len() == old(steps)@.len(),
        forall|k: int| 0 <= k < old(steps)@.len() ==> #[trigger] old(dates)@[k]@ == old(steps)@[k].date@,
        states_uncut(vec_or_empty(*states)),
    ensures
        final(steps)@.map_values(|t: TimelineStep| step_view(t)) == old(steps)@.map_values(
            |t: TimelineStep| step_view(t),
        ) + state_steps(vec_or_empty(*states), *chamber),
        final(dates)@.len() == final(steps)@.len(),
        forall|k: int| 0 <= k < final(steps)@.len() ==> #[trigger] final(dates)@[k]@ == final(steps)@[k].date@,
{
    let ghost start = steps@.map_values(|t: TimelineStep| step_view(t));
    match states {
        None => {
            assert(steps@.map_values(|t: TimelineStep| step_view(t)) =~= start + Seq::<
                (Seq<char>, Seq<char>),
            >::empty());
        },
        Some(list) => {
            let mut i: usize = 0;
            assert(start + state_steps(list@.take(0), *chamber) =~= start);
            while i < list.len()
                invariant
                    i <= list@.len(),
                    steps@.map_values(|t: TimelineStep| step_view(t)) == start + state_steps(
                        list@.take(i as int),
                        *chamber,
                    ),
                    dates@.len() == steps@.len(),
                    forall|k: int| 0 <= k < steps@.len() ==> #[trigger] dates@[k]@ == steps@[k].date@,
                    states_uncut(list@),
                decreases list.len() - i,
            {
                let st = &list[i];
                proof {
                    assert(list@.take(i + 1).drop_last() =~= list@.take(i as int));
                    assert(list@.take(i + 1).last() == list@[i as int]);
                }
                let date = dot_net_date(
                    match &st.update_date {
                        Some(u) => Some(u.as_str()),
                        None => None,
                    },
                );
                match date {
                    Some(d) => {
                        match &st.description {
                            Some(desc) => {
                                if chars_of(desc.as_str()).len() > 0 {
                                    let event = match chamber {
                                        Some(c) => if chars_of(c.as_str()).len() > 0 {
                                            let a = concat3(desc.as_str(), " (", c.as_str());
                                            let b = concat2(a.as_str(), ")");
                                            strip_html(b.as_str())
                                        } else {
                                            strip_html(desc.as_str())
                                        },
                                        None => strip_html(desc.as_str()),
                                    };
                                    let ghost before = steps@;
                                    let dk = d.clone();
                                    steps.push(TimelineStep { date: d, event });
                                    dates.push(dk);
                                    assert(steps@.map_values(|t: TimelineStep| step_view(t)) =~= before.map_values(
                                        |t: TimelineStep| step_view(t),
                                    ).push(step_view(steps@.last())));
                                }
                            },
                            None => {},
                        }
                    },
                    None => {},
                }
                proof {
                    assert(start + state_steps(list@.take(i + 1), *chamber) =~= start + state_steps(
                        list@.take(i + 1),
                        *chamber,
                    ));
                }
                i = i + 1;
            }
            assert(list@.take(list.len() as int) =~= list@);
        },
    }
}

/// A bill completed from its detail record: the chamber-stamped progress
/// steps as the timeline, sorted by date (a step without a decodable date or
/// a description is dropped), the sponsors and movers as raisers, and the
/// ParlInfo link where one is given. A detail without a bill leaves the bill
/// as it was.
#[verifier::rlimit(60)]
#[verifier::spinoff_prover]
pub fn with_detail(bill: Bill, detail: &ParlWorkDetail) -> (r: Bill)
    requires
        detail_dates_uncut(*detail),
    ensures
        detail.bill is None ==> r == bill,
        detail.bill matches Some(inner) ==> {
            let steps = all_steps(vec_or_empty(inner.grouped_progress_states));
            &&& exists|p: Seq<usize>|
                {
                    &&& is_permutation(p, steps.len())
                    &&& r.timeline@.len() == steps.len()
                    &&& forall|i: int|
                        0 <= i < steps.len() ==> step_view(#[trigger] r.timeline@[i]) == steps[p[i] as int]
                    &&& forall|i: int|
                        0 <= i < r.timeline@.len() - 1 && crate::collate::collation_rank(
                            #[trigger] r.timeline@[i].date@,
                            r.timeline@[i + 1].date@,
                        ) == 0 && crate::collate::collation_rank(r.timeline@[i + 1].date@, r.timeline@[i].date@)
                            == 0 ==> p[i] < p[i + 1]
                }
            &&& forall|i: int|
                0 <= i < r.timeline@.len() - 1 ==> crate::collate::collation_rank(
                    #[trigger] r.timeline@[i].date@,
                    r.timeline@[i + 1].date@,
                ) <= 0
            &&& r.sponsors@.map_values(|x: BillRaiser| raiser_view(x)) == raisers_of(
                vec_or_empty(inner.sponsors),
            )
            &&& r.movers@.map_values(|x: BillRaiser| raiser_view(x)) == raisers_of(
                vec_or_empty(inner.movers),
            )
            &&& opt_view(r.links.parlinfo) == (match inner.parl_info_url {
                Some(u) => if u@.len() > 0 {
                    Some(u@)
                } else {
                    opt_view(bill.links.parlinfo)
                },
                None => opt_view(bill.links.parlinfo),
            })
            &&& r.links.aph == bill.links.aph && r.links.text == bill.links.text && r.links.em
                == bill.links.em
            &&& r.id == bill.id && r.title == bill.title && r.parliament == bill.parliament
            &&& r.chamber == bill.chamber && r.bill_type == bill.bill_type && r.sponsor
                == bill.sponsor && r.portfolio == bill.portfolio && r.summary == bill.summary
            &&& r.ai_summary == bill.ai_summary && r.status == bill.status && r.list_updated
                == bill.list_updated && r.division_ids == bill.division_ids
        },
{
    let inner = match &detail.bill {
        None => {
            return bill;
        },
        Some(b) => b,
    };
    let mut steps: Vec<TimelineStep> = Vec::new();
    let mut dates: Vec<String> = Vec::new();
    let ghost groups = vec_or_empty(inner.grouped_progress_states);
    match &inner.grouped_progress_states {
        None => {},
        Some(gs) => {
            let mut g: usize = 0;
            while g < gs.len()
                invariant
                    g <= gs@.len(),
                    groups == gs@,
                    forall|x: int| 0 <= x < gs@.len() ==> states_uncut(vec_or_empty((#[trigger] gs@[x]).progress_states)),
                    steps@.map_values(|t: TimelineStep| step_view(t)) == all_steps(gs@.take(g as int)),
                    dates@.len() == steps@.len(),
                    forall|k: int| 0 <= k < steps@.len() ==> #[trigger] dates@[k]@ == steps@[k].date@,
                decreases gs.len() - g,
            {
                proof {
                    assert(gs@.take(g + 1).drop_last() =~= gs@.take(g as int));
                    assert(gs@.take(g + 1).last() == gs@[g as int]);
                }
                state_steps_exec(&gs[g].progress_states, &gs[g].formatted_chamber, &mut steps, &mut dates);
                g = g + 1;
            }
            assert(gs@.take(gs.len() as int) =~= gs@);
        },
    }
    let ghost unsorted = steps@;
    let ghost dv = dates@;
    let timeline = sorted_by(steps, &dates, false);
    proof {
        let steps_spec = all_steps(groups);
        assert(unsorted.map_values(|t: TimelineStep| step_view(t)) == steps_spec);
        let p = choose|p: Seq<usize>|
            {
                &&& is_permutation(p, unsorted.len())
                &&& ordered_by(string_views(dv), p)
                &&& timeline@.len() == unsorted.len()
                &&& forall|i: int| 0 <= i < timeline@.len() ==> timeline@[i] == unsorted[#[trigger] p[i] as int]
            };
        assert forall|i: int| 0 <= i < steps_spec.len() implies step_view(#[trigger] timeline@[i])
            == steps_spec[p[i] as int] by {
            assert(timeline@[i] == unsorted[p[i] as int]);
            assert(unsorted.map_values(|t: TimelineStep| step_view(t))[p[i] as int] == step_view(unsorted[p[i] as int]));
        }
        assert forall|i: int|
            0 <= i < timeline@.len() - 1 && crate::collate::collation_rank(
                #[trigger] timeline@[i].date@,
                timeline@[i + 1].date@,
            ) == 0 && crate::collate::collation_rank(timeline@[i + 1].date@, timeline@[i].date@) == 0 implies p[i]
            < p[i + 1] by {
            assert(timeline@[i] == unsorted[p[i] as int]);
            assert(timeline@[i + 1] == unsorted[p[i + 1] as int]);
            assert(string_views(dv)[p[i] as int] == dv[p[i] as int]@);
            assert(string_views(dv)[p[i + 1] as int] == dv[p[i + 1] as int]@);
        }
        assert forall|i: int| 0 <= i < timeline@.len() - 1 implies crate::collate::collation_rank(
            #[trigger] timeline@[i].date@,
            timeline@[i + 1].date@,
        ) <= 0 by {
            assert(timeline@[i] == unsorted[p[i] as int]);
            assert(timeline@[i + 1] == unsorted[p[i + 1] as int]);
            assert(string_views(dv)[p[i] as int] == dv[p[i] as int]@);
            assert(string_views(dv)[p[i + 1] as int] == dv[p[i + 1] as int]@);
        }
    }
    let mut links = BillLinks {
        aph: bill.links.aph.clone(),
        text: bill.links.text.clone(),
        em: bill.links.em.clone(),
        parlinfo: bill.links.parlinfo.clone(),
    };
    match &inner.parl_info_url {
        Some(u) => {
            if chars_of(u.as_str()).len() > 0 {
                links.parlinfo = Some(owned(u.as_str()));
            }
        },
        None => {},
    }
    let sponsors = raisers_exec(&inner.sponsors);
    let movers = raisers_exec(&inner.movers);
    Bill { timeline, sponsors, movers, links, ..bill }
}

// ---------------------------------------------------------------------------
// Stored prose that predates entity decoding
// ---------------------------------------------------------------------------

/// A character reference (`&#123;` with any decimal digits, `&#x1F;` or
/// `&name;`) at the front.
pub open spec fn entity_at(s: Seq<char>) -> bool {
    let d = run_len(s.skip(2), CharClass::Decimal);
    let h = run_len(s.skip(3), CharClass::Hex);
    let l = run_len(s.skip(1), CharClass::Letter);
    &&& s.len() >= 3
    &&& s[0] == '&'
    &&& {
        ||| (s[1] == '#' && d >= 1 && 2 + d < s.len() && s[2 + d] == ';')
        ||| (s.len() >= 4 && s[1] == '#' && s[2] == 'x' && h >= 1 && 3 + h < s.len() && s[3 + h] == ';')
        ||| (l >= 1 && 1 + l < s.len() && s[1 + l] == ';')
    }
}

pub open spec fn has_entity(s: Seq<char>) -> bool {
    exists|i: int| 0 <= i < s.len() && #[trigger] entity_at(s.skip(i))
}

fn entity_at_exec(v: &Vec<char>, i: usize) -> (r: bool)
    requires
        i < v.len(),
    ensures
        r == entity_at(v@.skip(i as int)),
{
    let ghost s = v@.skip(i as int);
    let n = v.len();
    if n - i < 3 || v[i] != '&' {
        return false;
    }
    assert(s[0] == v@[i as int] && s[1] == v@[i + 1] && s[2] == v@[i + 2]);
    let mut found = false;
    if v[i + 1] == '#' {
        let e = crate::html::run_end(v, i + 2, CharClass::Decimal);
        assert(v@.skip(i + 2) =~= s.skip(2));
        if e > i + 2 && e < n && v[e] == ';' {
            assert(s[e - i] == v@[e as int]);
            found = true;
        } else if e < n {
            assert(s[e - i] == v@[e as int]);
        }
    }
    if !found && n - i >= 4 && v[i + 1] == '#' && v[i + 2] == 'x' {
        let e = crate::html::run_end(v, i + 3, CharClass::Hex);
        assert(v@.skip(i + 3) =~= s.skip(3));
        if e > i + 3 && e < n && v[e] == ';' {
            assert(s[e - i] == v@[e as int]);
            found = true;
        } else if e < n {
            assert(s[e - i] == v@[e as int]);
        }
    } else if !found && n - i >= 4 {
        assert(s[3] == v@[i + 3]);
    }
    if !found {
        let e = crate::html::run_end(v, i + 1, CharClass::Letter);
        assert(v@.skip(i + 1) =~= s.skip(1));
        if e > i + 1 && e < n && v[e] == ';' {
            assert(s[e - i] == v@[e as int]);
            found = true;
        } else if e < n {
            assert(s[e - i] == v@[e as int]);
        }
    }
    found
}

fn has_entity_exec(text: &str) -> (r: bool)
    ensures
        r == has_entity(text@),
{
    let v = chars_of(text);
    let mut i: usize = 0;
    while i < v.len()
        invariant
            i <= v.len(),
            v@ == text@,
            forall|k: int| 0 <= k < i ==> !#[trigger] entity_at(v@.skip(k)),
        decreases v.len() - i,
    {
        if entity_at_exec(&v, i) {
            return true;
        }
        i = i + 1;
    }
    false
}

/// Whether any prose of a stored bill carries a character reference: its
/// title, status, timeline events, the names of its sponsors and movers, or
/// its summary.
pub open spec fn bill_has_entity(b: Bill) -> bool {
    ||| has_entity(b.title@)
    ||| has_entity(b.status@)
    ||| exists|i: int| 0 <= i < b.timeline@.len() && has_entity(#[trigger] b.timeline@[i].event@)
    ||| exists|i: int| 0 <= i < b.sponsors@.len() && has_entity(#[trigger] b.sponsors@[i].name@)
    ||| exists|i: int| 0 <= i < b.movers@.len() && has_entity(#[trigger] b.movers@[i].name@)
    ||| (match b.summary {
        Some(s) => has_entity(s@),
        None => false,
    })
}

fn any_event_entity(steps: &Vec<TimelineStep>) -> (r: bool)
    ensures
        r == exists|i: int| 0 <= i < steps@.len() && has_entity(#[trigger] steps@[i].event@),
{
    let mut k: usize = 0;
    while k < steps.len()
        invariant
            k <= steps@.len(),
            forall|j: int| 0 <= j < k ==> !has_entity(#[trigger] steps@[j].event@),
        decreases steps.len() - k,
    {
        if has_entity_exec(steps[k].event.as_str()) {
            return true;
        }
        k = k + 1;
    }
    false
}

fn any_name_entity(rs: &Vec<BillRaiser>) -> (r: bool)
    ensures
        r == exists|i: int| 0 <= i < rs@.len() && has_entity(#[trigger] rs@[i].name@),
{
    let mut k: usize = 0;
    while k < rs.len()
        invariant
            k <= rs@.len(),
            forall|j: int| 0 <= j < k ==> !has_entity(#[trigger] rs@[j].name@),
        decreases rs.len() - k,
    {
        if has_entity_exec(rs[k].name.as_str()) {
            return true;
        }
        k = k + 1;
    }
    false
}

/// True when stored prose still carries an HTML entity, so the record
/// predates the decoding and is worth rebuilding from the cached raw response.
pub fn carries_html_entity(bill: &Bill) -> (r: bool)
    ensures
        r == bill_has_entity(*bill),
{
    has_entity_exec(bill.title.as_str()) || has_entity_exec(bill.status.as_str()) || any_event_entity(
        &bill.timeline,
    ) || any_name_entity(&bill.sponsors) || any_name_entity(&bill.movers) || match &bill.summary {
        Some(s) => has_entity_exec(s.as_str()),
        None => false,
    }
}

/// What a list pass does with one listed bill.
#[derive(Debug, Clone, Copy, PartialEq, Eq, Structural)]
pub enum BillAction {
    /// Unchanged upstream and already complete: leave the stored record.
    Keep,
    /// Unchanged upstream, but the stored record lacks raiser fields or still
    /// carries an entity: rebuild it from the cached raw detail.
    Heal,
    /// New or moved upstream: fetch its detail and write it.
    Fetch,
}

/// The incremental rule: a stored bill whose list timestamp is unchanged and
/// whose timeline is present is not refetched; it is healed from the cached
/// detail when its raiser fields are missing or its prose carries an entity.
pub fn bill_action(existing: Option<&Bill>, raiser_fields_present: bool, list_updated: &str) -> (r: BillAction)
    ensures
        match existing {
            None => r == BillAction::Fetch,
            Some(b) => {
                let unchanged = opt_view(b.list_updated) == Some(list_updated@) && b.timeline@.len() > 0;
                &&& !unchanged ==> r == BillAction::Fetch
                &&& unchanged && (!raiser_fields_present || bill_has_entity(*b)) ==> r
                    == BillAction::Heal
                &&& unchanged && raiser_fields_present && !bill_has_entity(*b) ==> r
                    == BillAction::Keep
            },
        },
{
    match existing {
        None => BillAction::Fetch,
        Some(b) => {
            let same = match &b.list_updated {
                Some(u) => crate::text::str_eq(u.as_str(), list_updated),
                None => false,
            };
            if !(same && b.timeline.len() > 0) {
                BillAction::Fetch
            } else if !raiser_fields_present || carries_html_entity(b) {
                BillAction::Heal
            } else {
                BillAction::Keep
            }
        },
    }
}

/// The listing walks pages from 1 while they come back full, and stops
/// after the last page it may ask for.
pub fn next_bills_page(page: u64, batch_len: usize) -> (r: Option<u64>)
    ensures
        r == if batch_len < PAGE_SIZE || page >= MAX_PAGES {
            None::<u64>
        } else {
            Some((page + 1) as u64)
        },
{
    if batch_len < PAGE_SIZE || page >= MAX_PAGES as u64 {
        None
    } else {
        Some(page + 1)
    }
}

/// A listing that came back with no bills at all.
#[derive(Debug, Clone, Copy, PartialEq, Eq, Structural)]
pub struct EmptyListing;

impl EmptyListing {
    pub fn message(&self) -> (r: &'static str)
        ensures
            r@ == "parlwork: zero bills parsed, refusing to write"@,
    {
        "parlwork: zero bills parsed, refusing to write"
    }
}

/// An empty listing is refused rather than written: failures are reported,
/// never stored.
pub fn check_listing(count: usize) -> (r: Result<(), EmptyListing>)
    ensures
        r is Err <==> count == 0,
{
    if count == 0 {
        Err(EmptyListing)
    } else {
        Ok(())
    }
}

/// One page of the ParlWork bills list, newest first.
pub fn bills_page_url(parlwork: &str, page: u64) -> (r: String)
    ensures
        r@ == parlwork@ + "/bills?Take=100&Page="@ + crate::text::decimal_int(page as int)
            + "&SortOrder=2&Keyword=null&IsTitleSearch=true&DateRangeFrom=null&DateRangeTo=null&StatusFilters=0&BillTypes=0"@,
{
    let n = crate::text::uint_text(page);
    let head = concat3(parlwork, "/bills?Take=100&Page=", n.as_str());
    crate::text::concat2(
        head.as_str(),
        "&SortOrder=2&Keyword=null&IsTitleSearch=true&DateRangeFrom=null&DateRangeTo=null&StatusFilters=0&BillTypes=0",
    )
}

/// `raw/aph/bills-page-{page}.json`.
pub fn bills_page_key(page: u64) -> (r: String)
    ensures
        r@ == "raw/aph/bills-page-"@ + crate::text::decimal_int(page as int) + ".json"@,
{
    let n = crate::text::uint_text(page);
    concat3("raw/aph/bills-page-", n.as_str(), ".json")
}

/// `{parlwork}/bills/{id}`: a bill's detail record.
pub fn bill_detail_url(parlwork: &str, id: &str) -> (r: String)
    ensures
        r@ == parlwork@ + "/bills/"@ + id@,
{
    concat3(parlwork, "/bills/", id)
}

/// `canonical/bills/{id}.json`.
pub fn bill_key(id: &str) -> (r: String)
    ensures
        r@ == "canonical/bills/"@ + id@ + ".json"@,
{
    concat3("canonical/bills/", id, ".json")
}

/// `raw/aph/bill-{id}.json`: the cached detail response.
pub fn bill_raw_key(id: &str) -> (r: String)
    ensures
        r@ == "raw/aph/bill-"@ + id@ + ".json"@,
{
    concat3("raw/aph/bill-", id, ".json")
}

} // verus!
