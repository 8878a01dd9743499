//! Election results from the AEC's downloads: reading its CSV files,
//! summing by-election polling places, ranking candidates with their
//! shares, and naming the events.

use crate::aph::opt_view;
use crate::collections::{
    entries_get, text_entry_views, text_map_entries, text_map_get, text_map_insert, text_map_new,
    text_map_pairs,
};
use crate::schema::{state_of_code, CandidateResult, Electorate, ElectorateResult, Share, StateCode};
use crate::slug::{slugify, slugify_spec};
use crate::text::{
    chars_of, concat2, concat3, decimal_int, is_ascii_lower, is_white_space, lowercase_of, owned,
    split_chars, split_seq, str_eq, string_of, to_lower, trim_seq, upper_ascii, views_of,
    white_space,
};
use indexmap::IndexMap;
use vstd::prelude::*;

verus! {

/// One row of an AEC file: each column's header with the row's text.
pub type AecRow = IndexMap<String, String>;

/// The event names this site shows.
pub open spec fn event_name_spec(id: Seq<char>) -> Option<Seq<char>> {
    if id == "31633"@ {
        Some("2026 Farrer by-election"@)
    } else if id == "31496"@ {
        Some("2025 federal election"@)
    } else if id == "29807"@ {
        Some("2024 Cook by-election"@)
    } else if id == "29778"@ {
        Some("2024 Dunkley by-election"@)
    } else if id == "29422"@ {
        Some("2023 Fadden by-election"@)
    } else if id == "28791"@ {
        Some("2023 Aston by-election"@)
    } else if id == "27966"@ {
        Some("2022 federal election"@)
    } else if id == "24310"@ {
        Some("2019 federal election"@)
    } else {
        None
    }
}

pub fn event_name(event_id: &str) -> (r: Option<&'static str>)
    ensures
        crate::tvfy::opt_str(r) == event_name_spec(event_id@),
{
    if str_eq(event_id, "31633") {
        Some("2026 Farrer by-election")
    } else if str_eq(event_id, "31496") {
        Some("2025 federal election")
    } else if str_eq(event_id, "29807") {
        Some("2024 Cook by-election")
    } else if str_eq(event_id, "29778") {
        Some("2024 Dunkley by-election")
    } else if str_eq(event_id, "29422") {
        Some("2023 Fadden by-election")
    } else if str_eq(event_id, "28791") {
        Some("2023 Aston by-election")
    } else if str_eq(event_id, "27966") {
        Some("2022 federal election")
    } else if str_eq(event_id, "24310") {
        Some("2019 federal election")
    } else {
        None
    }
}

/// General elections publish per-candidate totals directly; by-elections
/// only publish polling-place files, which are summed per candidate.
pub const BY_ELECTIONS: [&'static str; 7] = ["31633", "29807", "29778", "29422", "28791", "25881", "25820"];

pub open spec fn by_election_ids() -> Seq<Seq<char>> {
    seq!["31633"@, "29807"@, "29778"@, "29422"@, "28791"@, "25881"@, "25820"@]
}

pub fn is_by_election(event_id: &str) -> (r: bool)
    ensures
        r == by_election_ids().contains(event_id@),
{
    let r = str_eq(event_id, "31633") || str_eq(event_id, "29807") || str_eq(event_id, "29778")
        || str_eq(event_id, "29422") || str_eq(event_id, "28791") || str_eq(event_id, "25881")
        || str_eq(event_id, "25820");
    proof {
        let ids = by_election_ids();
        if r {
            if event_id@ == "31633"@ {
                assert(ids[0] == event_id@);
            } else if event_id@ == "29807"@ {
                assert(ids[1] == event_id@);
            } else if event_id@ == "29778"@ {
                assert(ids[2] == event_id@);
            } else if event_id@ == "29422"@ {
                assert(ids[3] == event_id@);
            } else if event_id@ == "28791"@ {
                assert(ids[4] == event_id@);
            } else if event_id@ == "25881"@ {
                assert(ids[5] == event_id@);
            } else {
                assert(ids[6] == event_id@);
            }
        }
    }
    r
}

/// Electorate entities come only from the most recent general election.
pub const SEAT_MAP_EVENT: &'static str = "31496";

// ---------------------------------------------------------------------------
// CSV
// ---------------------------------------------------------------------------

/// Where a line's field scan stands: the fields finished, the field being
/// read, whether inside quotes, and whether a quote was just seen inside
/// quotes (an escaped quote or the closing one).
pub struct FieldScan {
    pub done: Seq<Seq<char>>,
    pub cur: Seq<char>,
    pub quoted: bool,
    pub quote_seen: bool,
}

/// One character of a line: commas separate fields; a field that starts
/// with a quote runs to the closing quote, a doubled quote inside standing
/// for one; anything after the closing quote is kept as text.
pub open spec fn scan_step(s: FieldScan, c: char) -> FieldScan {
    if s.quoted && !s.quote_seen {
        if c == '"' {
            FieldScan { quote_seen: true, ..s }
        } else {
            FieldScan { cur: s.cur.push(c), ..s }
        }
    } else if s.quoted && s.quote_seen && c == '"' {
        FieldScan { cur: s.cur.push('"'), quote_seen: false, ..s }
    } else if c == ',' {
        FieldScan { done: s.done.push(s.cur), cur: Seq::empty(), quoted: false, quote_seen: false }
    } else if c == '"' && s.cur.len() == 0 && !s.quoted {
        FieldScan { quoted: true, ..s }
    } else {
        FieldScan { cur: s.cur.push(c), quoted: false, quote_seen: false, ..s }
    }
}

pub open spec fn scan_line(line: Seq<char>) -> FieldScan
    decreases line.len(),
{
    if line.len() == 0 {
        FieldScan { done: Seq::empty(), cur: Seq::empty(), quoted: false, quote_seen: false }
    } else {
        scan_step(scan_line(line.drop_last()), line.last())
    }
}

/// The fields of one line.
pub open spec fn csv_fields(line: Seq<char>) -> Seq<Seq<char>> {
    let s = scan_line(line);
    s.done.push(s.cur)
}

/// A line without the `\r` of a `\r\n` ending.
pub open spec fn strip_cr(line: Seq<char>) -> Seq<char> {
    if line.len() > 0 && line.last() == '\r' {
        line.drop_last()
    } else {
        line
    }
}

/// The non-blank lines of a body, each without its `\r`.
pub open spec fn csv_lines(body: Seq<char>) -> Seq<Seq<char>> {
    split_seq(body, '\n').map_values(|l: Seq<char>| strip_cr(l)).filter(|l: Seq<char>| l.len() > 0)
}

pub open spec fn all_empty(fields: Seq<Seq<char>>) -> bool {
    forall|i: int| 0 <= i < fields.len() ==> (#[trigger] fields[i]).len() == 0
}

/// The row a record makes under the headers: each header with the field
/// in its column, empty when the record is short; a repeated header keeps
/// its first place and takes the later field.
pub open spec fn row_entries(headers: Seq<Seq<char>>, fields: Seq<Seq<char>>) -> Seq<(Seq<char>, Seq<char>)>
    decreases headers.len(),
{
    if headers.len() == 0 {
        Seq::empty()
    } else {
        let i = headers.len() - 1;
        crate::collections::entries_insert(
            row_entries(headers.drop_last(), fields),
            headers[i],
            if i < fields.len() {
                fields[i]
            } else {
                Seq::empty()
            },
        )
    }
}

/// The rows of a CSV body: the first line is the header; records whose
/// fields are all empty are skipped.
pub open spec fn csv_records(lines: Seq<Seq<char>>) -> Seq<Seq<Seq<char>>>
    decreases lines.len(),
{
    if lines.len() <= 1 {
        Seq::empty()
    } else {
        let prev = csv_records(lines.drop_last());
        let fields = csv_fields(lines.last());
        if all_empty(fields) {
            prev
        } else {
            prev.push(fields)
        }
    }
}

fn scan_line_exec(line: &Vec<char>) -> (r: Vec<String>)
    ensures
        crate::text::string_views(r@) == csv_fields(line@),
{
    let mut done: Vec<String> = Vec::new();
    let mut cur: Vec<char> = Vec::new();
    let mut quoted = false;
    let mut quote_seen = false;
    let mut i: usize = 0;
    while i < line.len()
        invariant
            i <= line@.len(),
            crate::text::string_views(done@) == scan_line(line@.take(i as int)).done,
            cur@ == scan_line(line@.take(i as int)).cur,
            quoted == scan_line(line@.take(i as int)).quoted,
            quote_seen == scan_line(line@.take(i as int)).quote_seen,
        decreases line@.len() - i,
    {
        let c = line[i];
        proof {
            assert(line@.take(i + 1).drop_last() =~= line@.take(i as int));
            assert(line@.take(i + 1).last() == c);
        }
        if quoted && !quote_seen {
            if c == '"' {
                quote_seen = true;
            } else {
                cur.push(c);
            }
        } else if quoted && quote_seen && c == '"' {
            cur.push('"');
            quote_seen = false;
        } else if c == ',' {
            let ghost before = done@;
            done.push(string_of(&cur));
            proof {
                assert(crate::text::string_views(done@) =~= crate::text::string_views(before).push(cur@));
            }
            cur = Vec::new();
            quoted = false;
            quote_seen = false;
            proof {
                assert(cur@ =~= Seq::<char>::empty());
            }
        } else if c == '"' && cur.len() == 0 && !quoted {
            quoted = true;
        } else {
            cur.push(c);
            quoted = false;
            quote_seen = false;
        }
        i = i + 1;
    }
    proof {
        assert(line@.take(line@.len() as int) =~= line@);
    }
    let ghost before = done@;
    done.push(string_of(&cur));
    proof {
        assert(crate::text::string_views(done@) =~= crate::text::string_views(before).push(cur@));
    }
    done
}

fn strip_cr_exec(line: &Vec<char>) -> (r: Vec<char>)
    ensures
        r@ == strip_cr(line@),
{
    if line.len() > 0 && line[line.len() - 1] == '\r' {
        crate::text::sub_chars(line, 0, line.len() - 1)
    } else {
        crate::text::sub_chars(line, 0, line.len())
    }
}

fn all_empty_exec(fields: &Vec<String>) -> (r: bool)
    ensures
        r == all_empty(crate::text::string_views(fields@)),
{
    let mut i: usize = 0;
    while i < fields.len()
        invariant
            i <= fields@.len(),
            forall|k: int| 0 <= k < i ==> fields@[k]@.len() == 0,
        decreases fields@.len() - i,
    {
        if fields[i].as_str().unicode_len() > 0 {
            proof {
                assert(crate::text::string_views(fields@)[i as int].len() > 0);
            }
            return false;
        }
        i = i + 1;
    }
    true
}

fn row_from(headers: &Vec<String>, fields: &Vec<String>) -> (r: AecRow)
    ensures
        text_map_entries(r) == row_entries(crate::text::string_views(headers@), crate::text::string_views(fields@)),
{
    let mut row = text_map_new();
    let ghost hs = crate::text::string_views(headers@);
    let ghost fs = crate::text::string_views(fields@);
    let mut i: usize = 0;
    while i < headers.len()
        invariant
            i <= headers@.len(),
            hs == crate::text::string_views(headers@),
            fs == crate::text::string_views(fields@),
            text_map_entries(row) == row_entries(hs.take(i as int), fs),
        decreases headers@.len() - i,
    {
        proof {
            assert(hs.take(i + 1).drop_last() =~= hs.take(i as int));
            assert(hs.take(i + 1)[i as int] == headers@[i as int]@);
            reveal_strlit("");
        }
        let value = if i < fields.len() {
            fields[i].clone()
        } else {
            owned("")
        };
        proof {
            assert(fs.len() == fields@.len());
            if i < fields.len() {
                assert(fs[i as int] == fields@[i as int]@);
            }
            assert(value@ == (if (i as int) < fs.len() {
                fs[i as int]
            } else {
                Seq::<char>::empty()
            }));
        }
        text_map_insert(&mut row, headers[i].clone(), value);
        i = i + 1;
    }
    proof {
        assert(hs.take(hs.len() as int) =~= hs);
    }
    row
}

/// Never raised: a body always reads as rows.
#[derive(Debug, Clone, Copy, PartialEq, Eq, Structural)]
pub enum CsvError {
    Unreadable,
}

/// The rows of a CSV body: the first non-blank line is the header; records
/// are read field by field, a short record's missing columns are empty,
/// and records of only empty fields are skipped.
pub fn parse_csv(body: &str) -> (r: Result<Vec<AecRow>, CsvError>)
    ensures
        r is Ok,
        match r {
            Ok(rows) => {
                let lines = csv_lines(body@);
                let recs = csv_records(lines);
                &&& rows@.len() == recs.len()
                &&& forall|i: int|
                    0 <= i < rows@.len() ==> text_map_entries(#[trigger] rows@[i]) == row_entries(
                        csv_fields(lines[0]),
                        recs[i],
                    )
            },
            Err(_) => false,
        },
{
    let v = chars_of(body);
    let raw = split_chars(&v, '\n');
    let ghost split = split_seq(body@, '\n');
    let ghost stripped = split.map_values(|l: Seq<char>| strip_cr(l));
    let mut lines: Vec<Vec<char>> = Vec::new();
    let mut i: usize = 0;
    proof {
        reveal(Seq::filter);
    }
    while i < raw.len()
        invariant
            i <= raw@.len(),
            views_of(raw@) == split,
            stripped == split.map_values(|l: Seq<char>| strip_cr(l)),
            views_of(lines@) == stripped.take(i as int).filter(|l: Seq<char>| l.len() > 0),
        decreases raw@.len() - i,
    {
        let l = strip_cr_exec(&raw[i]);
        proof {
            reveal(Seq::filter);
            assert(stripped.take(i + 1).drop_last() =~= stripped.take(i as int));
            assert(stripped.take(i + 1).last() == strip_cr(raw@[i as int]@));
        }
        if l.len() > 0 {
            let ghost before = lines@;
            lines.push(l);
            proof {
                assert(views_of(lines@) =~= views_of(before).push(lines@.last()@));
            }
        }
        i = i + 1;
    }
    proof {
        assert(stripped.take(stripped.len() as int) =~= stripped);
    }
    let ghost ls = csv_lines(body@);
    assert(views_of(lines@) == ls);
    let mut rows: Vec<AecRow> = Vec::new();
    if lines.len() == 0 {
        return Ok(rows);
    }
    let headers = scan_line_exec(&lines[0]);
    let mut k: usize = 1;
    while k < lines.len()
        invariant
            1 <= k <= lines@.len(),
            views_of(lines@) == ls,
            crate::text::string_views(headers@) == csv_fields(ls[0]),
            rows@.len() == csv_records(ls.take(k as int)).len(),
            forall|m: int|
                0 <= m < rows@.len() ==> text_map_entries(#[trigger] rows@[m]) == row_entries(
                    csv_fields(ls[0]),
                    csv_records(ls.take(k as int))[m],
                ),
        decreases lines@.len() - k,
    {
        proof {
            assert(ls.take(k + 1).drop_last() =~= ls.take(k as int));
            assert(ls.take(k + 1).last() == lines@[k as int]@);
        }
        let fields = scan_line_exec(&lines[k]);
        if !all_empty_exec(&fields) {
            let row = row_from(&headers, &fields);
            rows.push(row);
        }
        k = k + 1;
    }
    proof {
        assert(ls.take(lines@.len() as int) =~= ls);
    }
    Ok(rows)
}

/// AEC files carry a metadata title line above the real header: the text
/// after the first line break, or nothing.
pub open spec fn after_title(csv: Seq<char>) -> Seq<char> {
    let i = crate::text::first_index(csv, '\n');
    if i < 0 {
        Seq::empty()
    } else {
        csv.skip(i + 1)
    }
}

pub fn body_after_title(csv: &str) -> (r: String)
    ensures
        r@ == after_title(csv@),
{
    let v = chars_of(csv);
    let mut i: usize = 0;
    while i < v.len() && v[i] != '\n'
        invariant
            i <= v@.len(),
            forall|k: int| 0 <= k < i ==> #[trigger] v@[k] != '\n',
        decreases v@.len() - i,
    {
        i = i + 1;
    }
    proof {
        crate::text::lemma_first_index(v@, '\n', i as int);
    }
    if i == v.len() {
        proof {
            reveal_strlit("");
        }
        owned("")
    } else {
        string_of(&crate::text::sub_chars(&v, i + 1, v.len()))
    }
}

// ---------------------------------------------------------------------------
// Names
// ---------------------------------------------------------------------------

/// What may come before a word's first letter: the start, whitespace, a
/// hyphen or an apostrophe.
pub open spec fn is_name_break(c: char) -> bool {
    is_white_space(c) || c == '-' || c == '\''
}

/// Each lower-case letter that starts a word made upper-case.
pub open spec fn cap_words(s: Seq<char>) -> Seq<char>
    decreases s.len(),
{
    if s.len() == 0 {
        s
    } else {
        let prev = cap_words(s.drop_last());
        let c = s.last();
        let starts = s.len() == 1 || is_name_break(s[s.len() - 2]);
        prev.push(if starts && is_ascii_lower(c) {
            upper_ascii(c)
        } else {
            c
        })
    }
}

/// After "Mc", the next lower-case letter made upper-case.
pub open spec fn cap_mc(s: Seq<char>) -> Seq<char>
    decreases s.len(),
{
    if s.len() == 0 {
        s
    } else {
        let prev = cap_mc(s.drop_last());
        let c = s.last();
        let n = s.len();
        let after_mc = n >= 3 && s[n - 3] == 'M' && s[n - 2] == 'c';
        prev.push(if after_mc && is_ascii_lower(c) {
            upper_ascii(c)
        } else {
            c
        })
    }
}

/// A name in title case: lower-cased, each word's first letter (after a
/// space, hyphen or apostrophe) capitalised, and the letter after "Mc" too.
pub open spec fn title_case_spec(name: Seq<char>) -> Seq<char> {
    cap_mc(cap_words(lowercase_of(name)))
}

pub fn title_case(name: &str) -> (r: String)
    ensures
        r@ == title_case_spec(name@),
{
    let lowered = to_lower(name);
    let v = chars_of(lowered.as_str());
    let mut w: Vec<char> = Vec::new();
    let mut i: usize = 0;
    while i < v.len()
        invariant
            i <= v@.len(),
            w@ == cap_words(v@.take(i as int)),
        decreases v@.len() - i,
    {
        proof {
            assert(v@.take(i + 1).drop_last() =~= v@.take(i as int));
            if i >= 1 {
                assert(v@.take(i + 1)[i - 1] == v@[i - 1]);
            }
        }
        let c = v[i];
        let starts = i == 0 || white_space(v[i - 1]) || v[i - 1] == '-' || v[i - 1] == '\'';
        if starts && 'a' <= c && c <= 'z' {
            w.push(crate::text::to_upper_ascii(c));
        } else {
            w.push(c);
        }
        i = i + 1;
    }
    proof {
        assert(v@.take(v@.len() as int) =~= v@);
    }
    let mut out: Vec<char> = Vec::new();
    let mut j: usize = 0;
    while j < w.len()
        invariant
            j <= w@.len(),
            out@ == cap_mc(w@.take(j as int)),
        decreases w@.len() - j,
    {
        proof {
            assert(w@.take(j + 1).drop_last() =~= w@.take(j as int));
            if j >= 2 {
                assert(w@.take(j + 1)[j - 2] == w@[j - 2]);
                assert(w@.take(j + 1)[j - 1] == w@[j - 1]);
            }
        }
        let c = w[j];
        let after_mc = j >= 2 && w[j - 2] == 'M' && w[j - 1] == 'c';
        if after_mc && 'a' <= c && c <= 'z' {
            out.push(crate::text::to_upper_ascii(c));
        } else {
            out.push(c);
        }
        j = j + 1;
    }
    proof {
        assert(w@.take(w@.len() as int) =~= w@);
    }
    string_of(&out)
}


// ---------------------------------------------------------------------------
// Votes
// ---------------------------------------------------------------------------

/// The value of a row's column, if the row has it.
pub open spec fn cell(row: AecRow, key: Seq<char>) -> Option<Seq<char>> {
    entries_get(text_map_entries(row), key)
}

pub open spec fn cell_or(row: AecRow, key: Seq<char>, fallback: Seq<char>) -> Seq<char> {
    match cell(row, key) {
        Some(v) => v,
        None => fallback,
    }
}

pub open spec fn max_count() -> nat {
    u64::MAX as nat
}

/// The value of a digit string, held at the largest count once past it.
pub open spec fn saturated_digits(s: Seq<char>) -> nat
    decreases s.len(),
{
    if s.len() == 0 {
        0
    } else {
        let v = saturated_digits(s.drop_last()) * 10 + (s.last() as int - 48);
        if v > max_count() {
            max_count()
        } else {
            v as nat
        }
    }
}

pub open spec fn unsigned_part(t: Seq<char>) -> Seq<char> {
    if t.len() > 0 && t[0] == '+' {
        t.drop_first()
    } else {
        t
    }
}

pub open spec fn all_zeros(s: Seq<char>) -> bool {
    forall|i: int| 0 <= i < s.len() ==> #[trigger] s[i] == '0'
}

/// A whole number as a JavaScript number reading takes it when written with
/// digits: an optional `+`, then digits, optionally followed by a point and
/// only zeros, with a digit on at least one side of the point.
pub open spec fn whole_number_text(t: Seq<char>) -> bool {
    let u = unsigned_part(t);
    let i = crate::text::first_index(u, '.');
    if i < 0 {
        u.len() > 0 && crate::aph::all_digits(u)
    } else {
        crate::aph::all_digits(u.take(i)) && all_zeros(u.skip(i + 1)) && (i > 0 || u.len() > i + 1)
    }
}

/// The digits before the point.
pub open spec fn whole_part(t: Seq<char>) -> Seq<char> {
    let u = unsigned_part(t);
    let i = crate::text::first_index(u, '.');
    if i < 0 {
        u
    } else {
        u.take(i)
    }
}

/// Whether a vote count reads as a number: empty text (zero) or a whole
/// number. Anything else reads as NaN, which spoils every total it joins.
pub open spec fn vote_readable(text: Seq<char>) -> bool {
    let t = trim_seq(text);
    t.len() == 0 || whole_number_text(t)
}

/// A vote count as the files write it, around it spaces: its whole number,
/// held at the largest count once past it; empty text counts nothing, and
/// so (as a count) does text that is not a number.
pub open spec fn vote_value(text: Seq<char>) -> nat {
    let t = trim_seq(text);
    if t.len() > 0 && whole_number_text(t) {
        saturated_digits(whole_part(t))
    } else {
        0
    }
}

pub open spec fn sat_add(a: nat, b: nat) -> nat {
    if a + b > max_count() {
        max_count()
    } else {
        a + b
    }
}

proof fn lemma_saturated_bound(s: Seq<char>)
    requires
        crate::aph::all_digits(s),
    ensures
        saturated_digits(s) <= max_count(),
    decreases s.len(),
{
    if s.len() > 0 {
        assert forall|i: int| 0 <= i < s.len() - 1 implies crate::text::is_ascii_digit(#[trigger] s.drop_last()[i]) by {
            assert(s.drop_last()[i] == s[i]);
        }
        lemma_saturated_bound(s.drop_last());
    }
}

/// The saturated value of the digits `v[i..j]`.
fn digits_value(v: &Vec<char>, i: usize, j: usize) -> (r: u64)
    requires
        i <= j <= v.len(),
        crate::aph::all_digits(v@.subrange(i as int, j as int)),
    ensures
        r as nat == saturated_digits(v@.subrange(i as int, j as int)),
{
    let ghost w = v@.subrange(i as int, j as int);
    let mut acc: u64 = 0;
    let mut k: usize = i;
    while k < j
        invariant
            i <= k <= j <= v.len(),
            w == v@.subrange(i as int, j as int),
            crate::aph::all_digits(w),
            acc as nat == saturated_digits(w.take(k - i)),
        decreases j - k,
    {
        let c = v[k];
        proof {
            assert(w.take(k + 1 - i).drop_last() =~= w.take(k - i));
            assert(w.take(k + 1 - i).last() == c);
            assert(w[k - i] == c);
            assert(crate::text::is_ascii_digit(w[k - i]));
        }
        let d: u64 = (c as u32 - 48) as u64;
        let ghost old_acc = acc;
        acc = if acc > (u64::MAX - d) / 10 {
            u64::MAX
        } else {
            acc * 10 + d
        };
        proof {
            assert(acc as nat == saturated_digits(w.take(k + 1 - i))) by (nonlinear_arith)
                requires
                    acc == (if old_acc_value(w.take(k - i)) > (u64::MAX - d) / 10 {
                        u64::MAX as int
                    } else {
                        old_acc_value(w.take(k - i)) * 10 + d
                    }),
                    saturated_digits(w.take(k + 1 - i)) == (if old_acc_value(w.take(k - i)) * 10 + d > u64::MAX {
                        u64::MAX as int
                    } else {
                        old_acc_value(w.take(k - i)) * 10 + d
                    }),
                    0 <= d <= 9,
                    0 <= old_acc_value(w.take(k - i)) <= u64::MAX,
            ;
        }
        k = k + 1;
    }
    proof {
        assert(w.take(j - i) =~= w);
    }
    acc
}

/// A vote count and whether it read as a number.
fn read_votes(text: &str) -> (r: (u64, bool))
    ensures
        r.0 as nat == vote_value(text@),
        r.1 == vote_readable(text@),
{
    let t = crate::text::trim(text);
    let v = chars_of(t.as_str());
    let n = v.len();
    if n == 0 {
        return (0, true);
    }
    let start: usize = if v[0] == '+' {
        1
    } else {
        0
    };
    let ghost u = v@.skip(start as int);
    proof {
        assert(u =~= unsigned_part(v@));
    }
    // The point, if any.
    let mut p: usize = start;
    while p < n && v[p] != '.'
        invariant
            start <= p <= n == v.len(),
            forall|k: int| start <= k < p ==> #[trigger] v@[k] != '.',
        decreases n - p,
    {
        p = p + 1;
    }
    proof {
        assert forall|k: int| 0 <= k < p - start implies #[trigger] u[k] != '.' by {
            assert(u[k] == v@[k + start]);
        }
        if p < n {
            assert(u[p - start] == v@[p as int]);
        }
        crate::text::lemma_first_index(u, '.', p - start);
    }
    let whole_ok = crate::html::ascii_run(&v, start, p);
    proof {
        assert(v@.subrange(start as int, p as int) =~= u.take(p - start));
    }
    if p == n {
        if p > start && whole_ok {
            let value = digits_value(&v, start, p);
            proof {
                assert(u.take(p - start) =~= u);
            }
            return (value, true);
        }
        proof {
            assert(u.take(p - start) =~= u);
        }
        return (0, false);
    }
    // Only zeros after the point.
    let mut z: usize = p + 1;
    while z < n && v[z] == '0'
        invariant
            p < z <= n == v.len(),
            forall|k: int| p < k < z ==> #[trigger] v@[k] == '0',
        decreases n - z,
    {
        z = z + 1;
    }
    let zeros_ok = z == n;
    proof {
        let tail = u.skip(p - start + 1);
        assert(tail =~= v@.skip(p + 1));
        if zeros_ok {
            assert forall|k: int| 0 <= k < tail.len() implies #[trigger] tail[k] == '0' by {
                assert(tail[k] == v@[p + 1 + k]);
            }
        } else {
            assert(tail[z - p - 1] == v@[z as int]);
        }
    }
    if whole_ok && zeros_ok && (p > start || n > p + 1) {
        let value = digits_value(&v, start, p);
        return (value, true);
    }
    (0, false)
}

pub fn vote_count(text: &str) -> (r: u64)
    ensures
        r as nat == vote_value(text@),
{
    read_votes(text).0
}

/// Whether a vote count reads as a number.
pub fn votes_readable(text: &str) -> (r: bool)
    ensures
        r == vote_readable(text@),
{
    read_votes(text).1
}

spec fn old_acc_value(s: Seq<char>) -> int {
    saturated_digits(s) as int
}

/// The AEC's first-preference files list informal ballots as one more row,
/// its party and surname both "Informal".
pub const INFORMAL: &'static str = "Informal";

pub open spec fn informal_row(row: AecRow) -> bool {
    cell(row, "PartyNm"@) == Some(INFORMAL@) || cell(row, "Surname"@) == Some(INFORMAL@)
}

pub fn is_informal_row(row: &AecRow) -> (r: bool)
    ensures
        r == informal_row(*row),
{
    let party = text_map_get(row, "PartyNm");
    let surname = text_map_get(row, "Surname");
    let by_party = match &party {
        Some(p) => str_eq(p.as_str(), INFORMAL),
        None => false,
    };
    let by_surname = match &surname {
        Some(s) => str_eq(s.as_str(), INFORMAL),
        None => false,
    };
    by_party || by_surname
}

fn cell_or_exec(row: &AecRow, key: &str, fallback: &str) -> (r: String)
    ensures
        r@ == cell_or(*row, key@, fallback@),
{
    match text_map_get(row, key) {
        Some(v) => v,
        None => owned(fallback),
    }
}

/// A row's total votes.
pub open spec fn row_votes(row: AecRow) -> nat {
    vote_value(cell_or(row, "TotalVotes"@, "0"@))
}

pub fn row_votes_exec(row: &AecRow) -> (r: u64)
    ensures
        r as nat == row_votes(*row),
{
    let t = cell_or_exec(row, "TotalVotes", "0");
    vote_count(t.as_str())
}

/// A row's swing, as the file writes it; absent when blank.
pub open spec fn row_swing(row: AecRow) -> Option<Seq<char>> {
    match cell(row, "Swing"@) {
        Some(s) => if s.len() == 0 {
            None
        } else {
            Some(s)
        },
        None => None,
    }
}

pub fn row_swing_exec(row: &AecRow) -> (r: Option<String>)
    ensures
        opt_view(r) == row_swing(*row),
{
    match text_map_get(row, "Swing") {
        Some(s) => if s.as_str().unicode_len() == 0 {
            None
        } else {
            Some(s)
        },
        None => None,
    }
}

/// Saturating at the largest count.
pub fn add_votes(a: u64, b: u64) -> (r: u64)
    ensures
        r as nat == sat_add(a as nat, b as nat),
{
    a.saturating_add(b)
}

fn to_i64(v: u64) -> (r: i64)
    ensures
        r as int == if v > i64::MAX {
            i64::MAX as int
        } else {
            v as int
        },
{
    if v > (i64::MAX as u64) {
        i64::MAX
    } else {
        v as i64
    }
}

/// The count in a candidate's `votes`, held at the largest `i64`.
pub open spec fn count_i64(v: nat) -> int {
    if v > i64::MAX {
        i64::MAX as int
    } else {
        v as int
    }
}

// ---------------------------------------------------------------------------
// By-elections
// ---------------------------------------------------------------------------

/// The candidates of polling-place rows, in first-seen order: each with the
/// first row of theirs and the sum of their ordinary votes.
pub open spec fn candidate_groups(rows: Seq<AecRow>) -> Seq<(Seq<char>, AecRow, nat)>
    decreases rows.len(),
{
    if rows.len() == 0 {
        Seq::empty()
    } else {
        let prev = candidate_groups(rows.drop_last());
        let r = rows.last();
        let id = cell_or(r, "CandidateID"@, Seq::empty());
        let votes = vote_value(cell_or(r, "OrdinaryVotes"@, "0"@));
        let i = group_index(prev, id);
        if i >= 0 {
            prev.update(i, (prev[i].0, prev[i].1, sat_add(prev[i].2, votes)))
        } else {
            prev.push((id, r, votes))
        }
    }
}

pub open spec fn group_index(g: Seq<(Seq<char>, AecRow, nat)>, id: Seq<char>) -> int
    decreases g.len(),
{
    if g.len() == 0 {
        -1
    } else {
        let r = group_index(g.drop_last(), id);
        if r >= 0 {
            r
        } else if g.last().0 == id {
            g.len() - 1
        } else {
            -1
        }
    }
}

proof fn lemma_group_index(g: Seq<(Seq<char>, AecRow, nat)>, id: Seq<char>)
    ensures
        -1 <= group_index(g, id) < g.len(),
        group_index(g, id) >= 0 ==> g[group_index(g, id)].0 == id,
        group_index(g, id) < 0 ==> forall|j: int| 0 <= j < g.len() ==> (#[trigger] g[j]).0 != id,
        group_index(g, id) >= 0 ==> forall|j: int| 0 <= j < group_index(g, id) ==> (#[trigger] g[j]).0 != id,
    decreases g.len(),
{
    if g.len() > 0 {
        lemma_group_index(g.drop_last(), id);
        assert forall|j: int| 0 <= j < g.len() - 1 implies g[j] == g.drop_last()[j] by {}
    }
}

/// Whether every polling-place row of candidate `id` reads its ordinary
/// votes as a number.
pub open spec fn group_read(rows: Seq<AecRow>, id: Seq<char>) -> bool
    decreases rows.len(),
{
    if rows.len() == 0 {
        true
    } else {
        group_read(rows.drop_last(), id) && (cell_or(rows.last(), "CandidateID"@, Seq::empty()) != id
            || vote_readable(cell_or(rows.last(), "OrdinaryVotes"@, "0"@)))
    }
}

proof fn lemma_absent_read(rows: Seq<AecRow>, id: Seq<char>)
    requires
        forall|j: int| 0 <= j < candidate_groups(rows).len() ==> (#[trigger] candidate_groups(rows)[j]).0 != id,
    ensures
        group_read(rows, id),
    decreases rows.len(),
{
    if rows.len() > 0 {
        let prev = candidate_groups(rows.drop_last());
        let rid = cell_or(rows.last(), "CandidateID"@, Seq::empty());
        lemma_group_index(prev, rid);
        let now = candidate_groups(rows);
        assert forall|j: int| 0 <= j < prev.len() implies (#[trigger] prev[j]).0 != id by {
            assert(now[j].0 == prev[j].0);
        }
        lemma_absent_read(rows.drop_last(), id);
        if rid == id {
            let i = group_index(prev, rid);
            if i >= 0 {
                assert(now[i].0 == id);
            } else {
                assert(now[prev.len() as int].0 == id);
            }
        }
    }
}

/// The total a by-election candidate's row shows: the sum of their ordinary
/// votes, or "NaN" when one of them did not read as a number.
pub open spec fn total_text(total: nat, read: bool) -> Seq<char> {
    if read {
        decimal_int(total as int)
    } else {
        "NaN"@
    }
}

/// A by-election candidate's row: their first polling-place row with the
/// summed votes as `TotalVotes` and a blank `Swing` (booth swings do not sum).
pub open spec fn aggregated_entries(first: AecRow, total: nat, read: bool) -> Seq<(Seq<char>, Seq<char>)> {
    crate::collections::entries_insert(
        crate::collections::entries_insert(text_map_entries(first), "TotalVotes"@, total_text(total, read)),
        "Swing"@,
        Seq::empty(),
    )
}

/// Sums polling-place rows into per-candidate totals shaped like the
/// by-vote-type files, so downstream reading is identical.
#[verifier::spinoff_prover]
pub fn aggregate_polling_places(rows: &[AecRow]) -> (r: Vec<AecRow>)
    ensures
        r@.len() == candidate_groups(rows@).len(),
        forall|i: int|
            0 <= i < r@.len() ==> text_map_entries(#[trigger] r@[i]) == aggregated_entries(
                candidate_groups(rows@)[i].1,
                candidate_groups(rows@)[i].2,
                group_read(rows@, candidate_groups(rows@)[i].0),
            ),
{
    let mut ids: Vec<String> = Vec::new();
    let mut firsts: Vec<usize> = Vec::new();
    let mut totals: Vec<u64> = Vec::new();
    let mut oks: Vec<bool> = Vec::new();
    let mut t: usize = 0;
    while t < rows.len()
        invariant
            t <= rows@.len(),
            ids@.len() == firsts@.len() == totals@.len() == oks@.len() == candidate_groups(rows@.take(t as int)).len(),
            forall|k: int|
                0 <= k < ids@.len() ==> {
                    let g = candidate_groups(rows@.take(t as int))[k];
                    &&& (#[trigger] ids@[k])@ == g.0
                    &&& firsts@[k] < rows@.len()
                    &&& rows@[firsts@[k] as int] == g.1
                    &&& totals@[k] as nat == g.2
                    &&& oks@[k] == group_read(rows@.take(t as int), g.0)
                },
        decreases rows@.len() - t,
    {
        let ghost prev = candidate_groups(rows@.take(t as int));
        proof {
            assert(rows@.take(t + 1).drop_last() =~= rows@.take(t as int));
            assert(rows@.take(t + 1).last() == rows@[t as int]);
            reveal_strlit("");
        }
        let row = &rows[t];
        let id = cell_or_exec(row, "CandidateID", "");
        let ov = cell_or_exec(row, "OrdinaryVotes", "0");
        let (votes, readable) = read_votes(ov.as_str());
        let mut k: usize = 0;
        let mut found: Option<usize> = None;
        while k < ids.len()
            invariant
                k <= ids@.len(),
                ids@.len() == prev.len(),
                forall|m: int| 0 <= m < ids@.len() ==> (#[trigger] ids@[m])@ == prev[m].0,
                match found {
                    Some(f) => f < ids@.len() && f as int == group_index(prev, id@),
                    None => group_index(prev.take(k as int), id@) == -1,
                },
            decreases ids@.len() - k,
        {
            if found.is_none() {
                proof {
                    assert(prev.take(k + 1).drop_last() =~= prev.take(k as int));
                    assert(prev.take(k + 1).last() == prev[k as int]);
                }
                if str_eq(ids[k].as_str(), id.as_str()) {
                    found = Some(k);
                    proof {
                        lemma_group_prefix(prev, id@, k + 1);
                    }
                }
            }
            k = k + 1;
        }
        proof {
            if found.is_none() {
                assert(prev.take(ids@.len() as int) =~= prev);
            }
            lemma_group_index(prev, id@);
        }
        let ghost now = candidate_groups(rows@.take(t + 1));
        proof {
            assert(id@ == cell_or(rows@[t as int], "CandidateID"@, Seq::empty()));
            assert(votes as nat == vote_value(cell_or(rows@[t as int], "OrdinaryVotes"@, "0"@)));
        }
        match found {
            Some(f) => {
                let sum = add_votes(totals[f], votes);
                totals.set(f, sum);
                let ok = oks[f] && readable;
                oks.set(f, ok);
                proof {
                    assert(now == prev.update(f as int, (prev[f as int].0, prev[f as int].1, sat_add(prev[f as int].2, votes as nat))));
                    lemma_group_ids_distinct(rows@.take(t as int));
                    assert forall|m: int| 0 <= m < ids@.len() implies {
                        let g = now[m];
                        &&& (#[trigger] ids@[m])@ == g.0
                        &&& firsts@[m] < rows@.len()
                        &&& rows@[firsts@[m] as int] == g.1
                        &&& totals@[m] as nat == g.2
                        &&& oks@[m] == group_read(rows@.take(t + 1), g.0)
                    } by {
                        assert(ids@[m]@ == prev[m].0);
                        if m != f {
                            assert(prev[m].0 != prev[f as int].0);
                        }
                    }
                }
            },
            None => {
                proof {
                    lemma_absent_read(rows@.take(t as int), id@);
                }
                ids.push(id);
                firsts.push(t);
                totals.push(votes);
                oks.push(readable);
                proof {
                    assert(now == prev.push((id@, rows@[t as int], votes as nat)));
                    assert forall|m: int| 0 <= m < ids@.len() implies {
                        let g = now[m];
                        &&& (#[trigger] ids@[m])@ == g.0
                        &&& firsts@[m] < rows@.len()
                        &&& rows@[firsts@[m] as int] == g.1
                        &&& totals@[m] as nat == g.2
                        &&& oks@[m] == group_read(rows@.take(t + 1), g.0)
                    } by {
                        if m < prev.len() {
                            assert(ids@[m]@ == prev[m].0);
                            assert(prev[m].0 != id@);
                        }
                    }
                }
            },
        }
        t = t + 1;
    }
    proof {
        assert(rows@.take(rows@.len() as int) =~= rows@);
    }
    let ghost groups = candidate_groups(rows@);
    let mut out: Vec<AecRow> = Vec::new();
    let mut k: usize = 0;
    while k < ids.len()
        invariant
            k <= ids@.len(),
            ids@.len() == firsts@.len() == totals@.len() == oks@.len() == groups.len(),
            groups == candidate_groups(rows@),
            forall|m: int|
                0 <= m < ids@.len() ==> {
                    let g = groups[m];
                    &&& (#[trigger] ids@[m])@ == g.0
                    &&& firsts@[m] < rows@.len()
                    &&& rows@[firsts@[m] as int] == g.1
                    &&& totals@[m] as nat == g.2
                    &&& oks@[m] == group_read(rows@, g.0)
                },
            out@.len() == k,
            forall|m: int| 0 <= m < k ==> text_map_entries(#[trigger] out@[m]) == aggregated_entries(groups[m].1, groups[m].2, group_read(rows@, groups[m].0)),
        decreases ids@.len() - k,
    {
        proof {
            assert(ids@[k as int]@ == groups[k as int].0);
        }
        let mut fresh = crate::collections::text_map_clone(&rows[firsts[k]]);
        assert(text_map_entries(fresh) == text_map_entries(groups[k as int].1));
        let shown = if oks[k] {
            crate::text::uint_text(totals[k])
        } else {
            owned("NaN")
        };
        assert(shown@ == total_text(groups[k as int].2, group_read(rows@, groups[k as int].0)));
        text_map_insert(&mut fresh, owned("TotalVotes"), shown);
        assert(text_map_entries(fresh) == crate::collections::entries_insert(text_map_entries(groups[k as int].1), "TotalVotes"@, total_text(groups[k as int].2, group_read(rows@, groups[k as int].0))));
        let blank = owned("");
        proof {
            reveal_strlit("");
            assert(blank@ =~= Seq::<char>::empty());
        }
        text_map_insert(&mut fresh, owned("Swing"), blank);
        proof {
            assert(text_map_entries(fresh) == aggregated_entries(groups[k as int].1, groups[k as int].2, group_read(rows@, groups[k as int].0)));
        }
        let ghost before = out@;
        out.push(fresh);
        proof {
            assert forall|m: int| 0 <= m < k + 1 implies text_map_entries(#[trigger] out@[m]) == aggregated_entries(groups[m].1, groups[m].2, group_read(rows@, groups[m].0)) by {
                if m < k {
                    assert(out@[m] == before[m]);
                }
            }
        }
        k = k + 1;
    }
    out
}

/// A polling-place row's ordinary votes.
pub open spec fn row_ordinary(r: AecRow) -> nat {
    vote_value(cell_or(r, "OrdinaryVotes"@, "0"@))
}

/// Every ordinary vote of the rows.
pub open spec fn rows_votes(rows: Seq<AecRow>) -> nat
    decreases rows.len(),
{
    if rows.len() == 0 {
        0
    } else {
        rows_votes(rows.drop_last()) + row_ordinary(rows.last())
    }
}

/// The candidates' totals, added up.
pub open spec fn group_votes(g: Seq<(Seq<char>, AecRow, nat)>) -> nat
    decreases g.len(),
{
    if g.len() == 0 {
        0
    } else {
        group_votes(g.drop_last()) + g.last().2
    }
}

proof fn lemma_group_votes_update(g: Seq<(Seq<char>, AecRow, nat)>, i: int, e: (Seq<char>, AecRow, nat))
    requires
        0 <= i < g.len(),
    ensures
        group_votes(g.update(i, e)) == group_votes(g) - g[i].2 + e.2,
        g[i].2 <= group_votes(g),
    decreases g.len(),
{
    let u = g.update(i, e);
    if i == g.len() - 1 {
        assert(u.drop_last() =~= g.drop_last());
    } else {
        assert(u.drop_last() =~= g.drop_last().update(i, e));
        lemma_group_votes_update(g.drop_last(), i, e);
    }
}

proof fn lemma_group_ids_distinct(rows: Seq<AecRow>)
    ensures
        forall|a: int, b: int|
            0 <= a < b < candidate_groups(rows).len() ==> (#[trigger] candidate_groups(rows)[a]).0
                != (#[trigger] candidate_groups(rows)[b]).0,
    decreases rows.len(),
{
    if rows.len() > 0 {
        let prev = candidate_groups(rows.drop_last());
        let id = cell_or(rows.last(), "CandidateID"@, Seq::empty());
        lemma_group_ids_distinct(rows.drop_last());
        lemma_group_index(prev, id);
    }
}

/// Polling-place rows summed per candidate lose no vote and count no
/// candidate twice: the candidates' totals add up to every ordinary vote of
/// the rows (while no count reaches the saturation point), and each
/// candidate id stands once.
pub proof fn law_aggregation_keeps_every_vote(rows: Seq<AecRow>)
    requires
        rows_votes(rows) <= max_count(),
    ensures
        group_votes(candidate_groups(rows)) == rows_votes(rows),
        forall|a: int, b: int|
            0 <= a < b < candidate_groups(rows).len() ==> (#[trigger] candidate_groups(rows)[a]).0
                != (#[trigger] candidate_groups(rows)[b]).0,
    decreases rows.len(),
{
    lemma_group_ids_distinct(rows);
    if rows.len() > 0 {
        let rest = rows.drop_last();
        let r = rows.last();
        let prev = candidate_groups(rest);
        let id = cell_or(r, "CandidateID"@, Seq::empty());
        let votes = vote_value(cell_or(r, "OrdinaryVotes"@, "0"@));
        law_aggregation_keeps_every_vote(rest);
        lemma_group_index(prev, id);
        let i = group_index(prev, id);
        if i >= 0 {
            lemma_group_votes_update(prev, i, (prev[i].0, prev[i].1, sat_add(prev[i].2, votes)));
        } else {
            assert(prev.push((id, r, votes)).drop_last() =~= prev);
        }
    }
}

proof fn lemma_group_prefix(g: Seq<(Seq<char>, AecRow, nat)>, id: Seq<char>, n: int)
    requires
        0 <= n <= g.len(),
        group_index(g.take(n), id) >= 0,
    ensures
        group_index(g, id) == group_index(g.take(n), id),
    decreases g.len() - n,
{
    if n < g.len() {
        assert(g.take(n + 1).drop_last() =~= g.take(n));
        lemma_group_prefix(g, id, n + 1);
    } else {
        assert(g.take(n) =~= g);
    }
}


// ---------------------------------------------------------------------------
// Candidates
// ---------------------------------------------------------------------------

pub open spec fn in_seat(r: AecRow, name: Seq<char>) -> bool {
    cell(r, "DivisionNm"@) == Some(name)
}

/// The seat's rows, split into candidates and informal ballots, in file order.
pub open spec fn seat_rows(rows: Seq<AecRow>, name: Seq<char>, informal: bool) -> Seq<AecRow>
    decreases rows.len(),
{
    if rows.len() == 0 {
        Seq::empty()
    } else {
        let prev = seat_rows(rows.drop_last(), name, informal);
        let r = rows.last();
        if in_seat(r, name) && informal_row(r) == informal {
            prev.push(r)
        } else {
            prev
        }
    }
}

/// The rows' votes summed, held at the largest count.
pub open spec fn votes_total(rs: Seq<AecRow>) -> nat
    decreases rs.len(),
{
    if rs.len() == 0 {
        0
    } else {
        sat_add(votes_total(rs.drop_last()), row_votes(rs.last()))
    }
}

proof fn lemma_row_votes_bound(r: AecRow)
    ensures
        row_votes(r) <= max_count(),
{
    let t = trim_seq(cell_or(r, "TotalVotes"@, "0"@));
    if t.len() > 0 && crate::aph::all_digits(t) {
        lemma_saturated_bound(t);
    }
}

proof fn lemma_votes_total(rs: Seq<AecRow>)
    ensures
        votes_total(rs) <= max_count(),
        forall|i: int| 0 <= i < rs.len() ==> row_votes(#[trigger] rs[i]) <= votes_total(rs),
    decreases rs.len(),
{
    if rs.len() > 0 {
        lemma_votes_total(rs.drop_last());
        lemma_row_votes_bound(rs.last());
        assert forall|i: int| 0 <= i < rs.len() implies row_votes(#[trigger] rs[i]) <= votes_total(rs) by {
            if i < rs.len() - 1 {
                assert(rs[i] == rs.drop_last()[i]);
            }
        }
    }
}

/// Whether a row's total votes read as a number.
pub open spec fn row_readable(row: AecRow) -> bool {
    vote_readable(cell_or(row, "TotalVotes"@, "0"@))
}

/// Whether every row's total votes read as a number.
pub open spec fn rows_read(rs: Seq<AecRow>) -> bool
    decreases rs.len(),
{
    if rs.len() == 0 {
        true
    } else {
        rows_read(rs.drop_last()) && row_readable(rs.last())
    }
}

pub fn row_readable_exec(row: &AecRow) -> (r: bool)
    ensures
        r == row_readable(*row),
{
    let t = cell_or_exec(row, "TotalVotes", "0");
    votes_readable(t.as_str())
}

/// The candidate a row describes, its share taken of `total` when every
/// count of that total read as a number (`readable`), else NaN.
pub open spec fn candidate_of(r: AecRow, total: nat, readable: bool, c: CandidateResult) -> bool {
    let party = cell_or(r, "PartyNm"@, Seq::empty());
    let code = cell_or(r, "PartyAb"@, Seq::empty());
    &&& c.name@ == title_case_spec(
        trim_seq(cell_or(r, "GivenNm"@, Seq::empty()) + " "@ + cell_or(r, "Surname"@, Seq::empty())),
    )
    &&& c.party@ == if party.len() == 0 {
        "Independent"@
    } else {
        party
    }
    &&& opt_view(c.party_code) == if code.len() == 0 {
        None
    } else {
        Some(code)
    }
    &&& c.votes == count_i64(row_votes(r))
    &&& c.pct == if readable {
        Share::Of { votes: row_votes(r) as u64, total: total as u64 }
    } else {
        Share::NotANumber
    }
    &&& opt_view(c.swing) == row_swing(r)
    &&& c.elected == (cell_or(r, "Elected"@, Seq::empty()) == "Y"@)
}

/// The informal ballots as one row: named "Informal", their share taken of
/// every ballot cast (NaN unless every count read as a number), with the
/// file's swing when it gives exactly one row.
pub open spec fn informal_result(rs: Seq<AecRow>, total: nat, readable: bool, c: CandidateResult) -> bool {
    let v = votes_total(rs);
    &&& c.name@ == INFORMAL@
    &&& c.party@ == INFORMAL@
    &&& c.party_code is None
    &&& c.votes == count_i64(v)
    &&& c.pct == if readable && rows_read(rs) {
        Share::Of { votes: v as u64, total: sat_add(total, v) as u64 }
    } else {
        Share::NotANumber
    }
    &&& opt_view(c.swing) == if rs.len() == 1 {
        row_swing(rs[0])
    } else {
        None
    }
    &&& !c.elected
}

/// One seat's results: the candidates ranked by votes (ties keep file
/// order), each share taken of formal votes, then the informal ballots,
/// when the file lists them, as a last row.
pub open spec fn candidates_of(rows: Seq<AecRow>, name: Seq<char>, r: Seq<CandidateResult>) -> bool {
    let f = seat_rows(rows, name, false);
    let inf = seat_rows(rows, name, true);
    let total = votes_total(f);
    &&& r.len() == f.len() + if inf.len() > 0 {
        1int
    } else {
        0int
    }
    &&& exists|p: Seq<usize>|
        {
            &&& crate::sorting::is_permutation(p, f.len())
            &&& forall|i: int|
                0 <= i < f.len() - 1 ==> count_i64(row_votes(f[#[trigger] p[i] as int])) >= count_i64(
                    row_votes(f[p[i + 1] as int]),
                )
            &&& forall|i: int|
                0 <= i < f.len() - 1 && count_i64(row_votes(f[#[trigger] p[i] as int])) == count_i64(
                    row_votes(f[p[i + 1] as int]),
                ) ==> p[i] < p[i + 1]
            &&& forall|i: int| 0 <= i < f.len() ==> candidate_of(f[#[trigger] p[i] as int], total, rows_read(f), r[i])
        }
    &&& inf.len() > 0 ==> informal_result(inf, total, rows_read(f), r[f.len() as int])
}

/// A candidate's party code is the row's `PartyAb` cell whenever that cell
/// is there and not empty, and there is none otherwise; its party is the
/// `PartyNm` cell, or Independent when that is missing or empty; and it is
/// elected exactly when the `Elected` cell is `Y`.
pub proof fn law_candidate_party_from_row(r: AecRow, total: nat, readable: bool, c: CandidateResult)
    requires
        candidate_of(r, total, readable, c),
    ensures
        ({
            let code = entries_get(text_map_entries(r), "PartyAb"@);
            &&& (code matches Some(v) && v.len() > 0) ==> c.party_code is Some && c.party_code.unwrap()@
                == code.unwrap()
            &&& !(code matches Some(v) && v.len() > 0) ==> c.party_code is None
        }),
        ({
            let party = entries_get(text_map_entries(r), "PartyNm"@);
            &&& (party matches Some(v) && v.len() > 0) ==> c.party@ == party.unwrap()
            &&& !(party matches Some(v) && v.len() > 0) ==> c.party@ == "Independent"@
        }),
        c.elected <==> entries_get(text_map_entries(r), "Elected"@) == Some("Y"@),
{
    reveal_strlit("Y");
}

fn candidate_from(r: &AecRow, total: u64, readable: bool) -> (c: CandidateResult)
    requires
        row_votes(*r) <= total,
    ensures
        candidate_of(*r, total as nat, readable, c),
{
    let given = cell_or_exec(r, "GivenNm", "");
    let surname = cell_or_exec(r, "Surname", "");
    let party = cell_or_exec(r, "PartyNm", "");
    let code = cell_or_exec(r, "PartyAb", "");
    let elected = cell_or_exec(r, "Elected", "");
    proof {
        reveal_strlit("");
        assert(""@ =~= Seq::<char>::empty());
    }
    let full = concat3(given.as_str(), " ", surname.as_str());
    let trimmed = crate::text::trim(full.as_str());
    let votes = row_votes_exec(r);
    CandidateResult {
        name: title_case(trimmed.as_str()),
        party: if party.as_str().unicode_len() == 0 {
            owned("Independent")
        } else {
            party
        },
        party_code: if code.as_str().unicode_len() == 0 {
            None
        } else {
            Some(code)
        },
        votes: to_i64(votes),
        pct: if readable {
            Share::Of { votes, total }
        } else {
            Share::NotANumber
        },
        swing: row_swing_exec(r),
        elected: str_eq(elected.as_str(), "Y"),
    }
}

fn seat_split(rows: &[AecRow], name: &str) -> (r: (Vec<usize>, Vec<usize>))
    ensures
        r.0@.len() == seat_rows(rows@, name@, false).len(),
        r.1@.len() == seat_rows(rows@, name@, true).len(),
        forall|i: int| 0 <= i < r.0@.len() ==> (#[trigger] r.0@[i]) < rows@.len() && rows@[r.0@[i] as int] == seat_rows(rows@, name@, false)[i],
        forall|i: int| 0 <= i < r.1@.len() ==> (#[trigger] r.1@[i]) < rows@.len() && rows@[r.1@[i] as int] == seat_rows(rows@, name@, true)[i],
{
    let mut formal: Vec<usize> = Vec::new();
    let mut informal: Vec<usize> = Vec::new();
    let mut t: usize = 0;
    while t < rows.len()
        invariant
            t <= rows@.len(),
            formal@.len() == seat_rows(rows@.take(t as int), name@, false).len(),
            informal@.len() == seat_rows(rows@.take(t as int), name@, true).len(),
            forall|i: int| 0 <= i < formal@.len() ==> (#[trigger] formal@[i]) < t && rows@[formal@[i] as int] == seat_rows(rows@.take(t as int), name@, false)[i],
            forall|i: int| 0 <= i < informal@.len() ==> (#[trigger] informal@[i]) < t && rows@[informal@[i] as int] == seat_rows(rows@.take(t as int), name@, true)[i],
        decreases rows@.len() - t,
    {
        proof {
            assert(rows@.take(t + 1).drop_last() =~= rows@.take(t as int));
            assert(rows@.take(t + 1).last() == rows@[t as int]);
        }
        let seat = match text_map_get(&rows[t], "DivisionNm") {
            Some(d) => str_eq(d.as_str(), name),
            None => false,
        };
        if seat {
            if is_informal_row(&rows[t]) {
                informal.push(t);
            } else {
                formal.push(t);
            }
        }
        t = t + 1;
    }
    proof {
        assert(rows@.take(rows@.len() as int) =~= rows@);
    }
    (formal, informal)
}

/// One seat's rows as results, ranked by votes. Candidate shares are of
/// formal votes, the base the AEC's own percentages use; the informal
/// ballots, where the file has them, follow as one row named "Informal",
/// their share taken of every ballot cast.
pub fn to_candidates(rows: &[AecRow], electorate_name: &str) -> (r: Vec<CandidateResult>)
    ensures
        candidates_of(rows@, electorate_name@, r@),
{
    let (formal, informal) = seat_split(rows, electorate_name);
    let ghost f = seat_rows(rows@, electorate_name@, false);
    let ghost inf = seat_rows(rows@, electorate_name@, true);
    let mut total: u64 = 0;
    let mut ok = true;
    let mut i: usize = 0;
    while i < formal.len()
        invariant
            i <= formal@.len() == f.len(),
            f == seat_rows(rows@, electorate_name@, false),
            forall|k: int| 0 <= k < formal@.len() ==> (#[trigger] formal@[k]) < rows@.len() && rows@[formal@[k] as int] == f[k],
            total as nat == votes_total(f.take(i as int)),
            ok == rows_read(f.take(i as int)),
        decreases formal@.len() - i,
    {
        proof {
            assert(f.take(i + 1).drop_last() =~= f.take(i as int));
            assert(f.take(i + 1).last() == f[i as int]);
        }
        let v = row_votes_exec(&rows[formal[i]]);
        ok = ok && row_readable_exec(&rows[formal[i]]);
        total = add_votes(total, v);
        i = i + 1;
    }
    proof {
        assert(f.take(f.len() as int) =~= f);
        lemma_votes_total(f);
    }
    let mut cands: Vec<CandidateResult> = Vec::new();
    let mut keys: Vec<i64> = Vec::new();
    let mut k: usize = 0;
    while k < formal.len()
        invariant
            k <= formal@.len() == f.len(),
            f == seat_rows(rows@, electorate_name@, false),
            forall|m: int| 0 <= m < formal@.len() ==> (#[trigger] formal@[m]) < rows@.len() && rows@[formal@[m] as int] == f[m],
            total as nat == votes_total(f),
            ok == rows_read(f),
            forall|m: int| 0 <= m < f.len() ==> row_votes(#[trigger] f[m]) <= votes_total(f),
            cands@.len() == k,
            keys@.len() == k,
            forall|m: int| 0 <= m < k ==> candidate_of(f[m], total as nat, ok, #[trigger] cands@[m]),
            forall|m: int| 0 <= m < k ==> #[trigger] keys@[m] == -count_i64(row_votes(f[m])),
        decreases formal@.len() - k,
    {
        proof {
            assert(row_votes(f[k as int]) <= votes_total(f));
        }
        let c = candidate_from(&rows[formal[k]], total, ok);
        keys.push(0 - c.votes);
        cands.push(c);
        k = k + 1;
    }
    let order = crate::summarise::order_by_key(&keys);
    let ghost unsorted = cands@;
    let mut out = crate::sorting::permute(cands, &order);
    proof {
        assert forall|m: int| 0 <= m < f.len() implies candidate_of(f[#[trigger] order@[m] as int], total as nat, ok, out@[m]) by {
            assert(out@[m] == unsorted[order@[m] as int]);
        }
        assert forall|m: int| 0 <= m < f.len() - 1 implies count_i64(row_votes(f[#[trigger] order@[m] as int])) >= count_i64(
            row_votes(f[order@[m + 1] as int])) by {
            assert(keys@[order@[m] as int] <= keys@[order@[m + 1] as int]);
        }
        assert forall|m: int| 0 <= m < f.len() - 1 && count_i64(row_votes(f[#[trigger] order@[m] as int])) == count_i64(
            row_votes(f[order@[m + 1] as int])) implies order@[m] < order@[m + 1] by {
            assert(keys@[order@[m] as int] == keys@[order@[m + 1] as int]);
        }
    }
    if informal.len() > 0 {
        let mut iv: u64 = 0;
        let mut iok = true;
        let mut j: usize = 0;
        while j < informal.len()
            invariant
                j <= informal@.len() == inf.len(),
                inf == seat_rows(rows@, electorate_name@, true),
                forall|m: int| 0 <= m < informal@.len() ==> (#[trigger] informal@[m]) < rows@.len() && rows@[informal@[m] as int] == inf[m],
                iv as nat == votes_total(inf.take(j as int)),
                iok == rows_read(inf.take(j as int)),
            decreases informal@.len() - j,
        {
            proof {
                assert(inf.take(j + 1).drop_last() =~= inf.take(j as int));
                assert(inf.take(j + 1).last() == inf[j as int]);
            }
            let v = row_votes_exec(&rows[informal[j]]);
            iok = iok && row_readable_exec(&rows[informal[j]]);
            iv = add_votes(iv, v);
            j = j + 1;
        }
        proof {
            assert(inf.take(inf.len() as int) =~= inf);
            lemma_votes_total(inf);
        }
        let all = add_votes(total, iv);
        let swing = if informal.len() == 1 {
            row_swing_exec(&rows[informal[0]])
        } else {
            None
        };
        let ghost before = out@;
        out.push(
            CandidateResult {
                name: owned(INFORMAL),
                party: owned(INFORMAL),
                party_code: None,
                votes: to_i64(iv),
                pct: if ok && iok {
                    Share::Of { votes: iv, total: all }
                } else {
                    Share::NotANumber
                },
                swing,
                elected: false,
            },
        );
        proof {
            assert forall|m: int| 0 <= m < f.len() implies candidate_of(f[#[trigger] order@[m] as int], total as nat, ok, out@[m]) by {
                assert(out@[m] == before[m]);
            }
        }
    }
    out
}

impl CandidateResult {
    /// Whether this is the informal-ballots row rather than a candidate.
    pub fn is_informal(&self) -> (r: bool)
        ensures
            r == (self.party@ == INFORMAL@),
    {
        str_eq(self.party.as_str(), INFORMAL)
    }
}


// ---------------------------------------------------------------------------
// What a sync stores
// ---------------------------------------------------------------------------

/// The seats a first-preference file covers, by name, each with its state
/// text as last given.
pub open spec fn seat_entries(rows: Seq<AecRow>) -> Seq<(Seq<char>, Seq<char>)>
    decreases rows.len(),
{
    if rows.len() == 0 {
        Seq::empty()
    } else {
        let r = rows.last();
        crate::collections::entries_insert(
            seat_entries(rows.drop_last()),
            cell_or(r, "DivisionNm"@, Seq::empty()),
            cell_or(r, "StateAb"@, Seq::empty()),
        )
    }
}

pub fn seats_of(first_prefs: &[AecRow]) -> (r: IndexMap<String, String>)
    ensures
        text_map_entries(r) == seat_entries(first_prefs@),
{
    let mut out = text_map_new();
    let mut i: usize = 0;
    proof {
        reveal_strlit("");
        assert(""@ =~= Seq::<char>::empty());
    }
    while i < first_prefs.len()
        invariant
            i <= first_prefs@.len(),
            ""@ =~= Seq::<char>::empty(),
            text_map_entries(out) == seat_entries(first_prefs@.take(i as int)),
        decreases first_prefs@.len() - i,
    {
        proof {
            assert(first_prefs@.take(i + 1).drop_last() =~= first_prefs@.take(i as int));
            assert(first_prefs@.take(i + 1).last() == first_prefs@[i as int]);
        }
        let name = cell_or_exec(&first_prefs[i], "DivisionNm", "");
        let state = cell_or_exec(&first_prefs[i], "StateAb", "");
        text_map_insert(&mut out, name, state);
        i = i + 1;
    }
    proof {
        assert(first_prefs@.take(first_prefs@.len() as int) =~= first_prefs@);
    }
    out
}

/// A sync over seats (name and state text, in the seat map's order) from
/// seat `i` on: how many seats it stores, and whether it stops on a seat
/// whose state text is no state code (the error `seat_records` gives).
pub open spec fn seat_run(seats: Seq<(Seq<char>, Seq<char>)>, i: nat) -> (nat, bool)
    decreases seats.len() - i,
{
    if i >= seats.len() {
        (i, false)
    } else if state_of_code(seats[i as int].1) is None {
        (i, true)
    } else {
        seat_run(seats, i + 1)
    }
}

proof fn lemma_seat_run(seats: Seq<(Seq<char>, Seq<char>)>, i: nat)
    requires
        i <= seats.len(),
    ensures
        i <= seat_run(seats, i).0 <= seats.len(),
        forall|j: int| i <= j < seat_run(seats, i).0 ==> state_of_code(#[trigger] seats[j].1) is Some,
        seat_run(seats, i).1 ==> seat_run(seats, i).0 < seats.len() && state_of_code(
            seats[seat_run(seats, i).0 as int].1,
        ) is None,
        !seat_run(seats, i).1 ==> seat_run(seats, i).0 == seats.len(),
    decreases seats.len() - i,
{
    if i < seats.len() && state_of_code(seats[i as int].1) is Some {
        lemma_seat_run(seats, i + 1);
    }
}

/// An event's sync stores its seats in order up to the first seat whose
/// state text is no state code, and fails there; every seat before it is
/// stored, and with no such seat every seat is stored.
pub proof fn law_invalid_state_stops_the_seats(seats: Seq<(Seq<char>, Seq<char>)>)
    ensures
        seat_run(seats, 0).0 <= seats.len(),
        forall|j: int| 0 <= j < seat_run(seats, 0).0 ==> state_of_code(#[trigger] seats[j].1) is Some,
        seat_run(seats, 0).1 <==> exists|j: int| 0 <= j < seats.len() && state_of_code(
            #[trigger] seats[j].1,
        ) is None,
        seat_run(seats, 0).1 ==> state_of_code(seats[seat_run(seats, 0).0 as int].1) is None,
        !seat_run(seats, 0).1 ==> seat_run(seats, 0).0 == seats.len(),
{
    lemma_seat_run(seats, 0);
    if seat_run(seats, 0).1 {
        let k = seat_run(seats, 0).0 as int;
        assert(state_of_code(seats[k].1) is None);
    }
}

/// A seat whose state text is not a state code stops the sync.
#[derive(Debug, Clone)]
pub struct InvalidState {
    pub state: String,
}

impl InvalidState {
    pub fn message(&self) -> (r: String)
        ensures
            r@ == "invalid state code: \""@ + self.state@ + "\""@,
    {
        concat3("invalid state code: \"", self.state.as_str(), "\"")
    }
}

/// An event's name, or `AEC event {id}` for one the site does not name.
pub fn event_label(event_id: &str) -> (r: String)
    ensures
        r@ == match event_name_spec(event_id@) {
            Some(n) => n,
            None => "AEC event "@ + event_id@,
        },
{
    match event_name(event_id) {
        Some(n) => owned(n),
        None => concat2("AEC event ", event_id),
    }
}

/// What one seat of an event stores: the seat itself when the event defines
/// the seat map, and the seat's results from both tables.
pub fn seat_records(
    event_id: &str,
    event_label: &str,
    name: &str,
    state: &str,
    first_prefs: &[AecRow],
    tcp: &[AecRow],
) -> (r: Result<(Option<Electorate>, ElectorateResult), InvalidState>)
    ensures
        match r {
            Ok((e, res)) => {
                &&& state_of_code(state@) == Some(res.state)
                &&& res.event_id@ == event_id@
                &&& res.event_name@ == event_label@
                &&& res.electorate_slug@ == slugify_spec(name@)
                &&& res.electorate_name@ == name@
                &&& candidates_of(first_prefs@, name@, res.first_prefs@)
                &&& candidates_of(tcp@, name@, res.tcp@)
                &&& (e is Some <==> event_id@ == SEAT_MAP_EVENT@)
                &&& match e {
                    Some(el) => el.slug@ == slugify_spec(name@) && el.name@ == name@ && el.state
                        == res.state && el.member_slug is None && el.profile is None
                        && el.enrolment is None,
                    None => true,
                }
            },
            Err(err) => state_of_code(state@) is None && err.state@ == state@,
        },
{
    let code = match StateCode::parse(state) {
        Some(c) => c,
        None => return Err(InvalidState { state: owned(state) }),
    };
    let slug = slugify(name);
    let electorate = if str_eq(event_id, SEAT_MAP_EVENT) {
        Some(
            Electorate {
                slug: slug.clone(),
                name: owned(name),
                state: code,
                member_slug: None,
                profile: None,
                enrolment: None,
            },
        )
    } else {
        None
    };
    let result = ElectorateResult {
        event_id: owned(event_id),
        event_name: owned(event_label),
        electorate_slug: slug,
        electorate_name: owned(name),
        state: code,
        first_prefs: to_candidates(first_prefs, name),
        tcp: to_candidates(tcp, name),
    };
    Ok((electorate, result))
}

/// `canonical/electorates/{slug}.json`.
pub fn electorate_key(slug: &str) -> (r: String)
    ensures
        r@ == "canonical/electorates/"@ + slug@ + ".json"@,
{
    concat3("canonical/electorates/", slug, ".json")
}

/// `canonical/elections/{event}/{slug}.json`.
pub fn election_key(event_id: &str, slug: &str) -> (r: String)
    ensures
        r@ == "canonical/elections/"@ + event_id@ + "/"@ + slug@ + ".json"@,
{
    let head = concat3("canonical/elections/", event_id, "/");
    concat3(head.as_str(), slug, ".json")
}

/// `raw/aec/{event}/{file}.csv`: where a download is kept.
pub fn raw_csv_key(event_id: &str, file: &str) -> (r: String)
    ensures
        r@ == "raw/aec/"@ + event_id@ + "/"@ + file@ + ".csv"@,
{
    let head = concat3("raw/aec/", event_id, "/");
    concat3(head.as_str(), file, ".csv")
}

/// `{results host}/{event}/Website/Downloads`.
pub fn downloads_base(results_root: &str, event_id: &str) -> (r: String)
    ensures
        r@ == results_root@ + "/"@ + event_id@ + "/Website/Downloads"@,
{
    let head = concat3(results_root, "/", event_id);
    concat2(head.as_str(), "/Website/Downloads")
}

/// `{base}/{file}-{event}.csv`.
pub fn download_url(base: &str, file: &str, event_id: &str) -> (r: String)
    ensures
        r@ == base@ + "/"@ + file@ + "-"@ + event_id@ + ".csv"@,
{
    let head = concat3(base, "/", file);
    let mid = concat3(head.as_str(), "-", event_id);
    concat2(mid.as_str(), ".csv")
}

/// A by-election's state comes from its candidate file's first row.
pub fn by_election_state(candidates: &[AecRow]) -> (r: String)
    ensures
        r@ == if candidates@.len() > 0 {
            cell_or(candidates@[0], "StateAb"@, Seq::empty())
        } else {
            Seq::empty()
        },
{
    proof {
        reveal_strlit("");
        assert(""@ =~= Seq::<char>::empty());
    }
    if candidates.len() > 0 {
        cell_or_exec(&candidates[0], "StateAb", "")
    } else {
        owned("")
    }
}

} // verus!
