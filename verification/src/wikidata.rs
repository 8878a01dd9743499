//! Current members of parliament from Wikidata: reading the SPARQL rows,
//! choosing one seat per person, turning members into people, licence
//! checks on their photos, and party facts.

use crate::aph::opt_view;
use crate::collections::{
    entries_get, keys_distinct, law_insert_then_get, text_map_entries, text_map_get,
    text_map_insert, text_map_new, text_map_pairs, text_entry_views,
};
use crate::config::{str_less, text_less, Endpoints};
use crate::js_url::{encode_uri_component, uri_component};
use crate::schema::{
    house_name, state_of_code, House, PartyFacts, Person, PersonIds, PersonLinks, Photo, StateCode,
};
use crate::slug::{slugify, slugify_spec};
use crate::text::{
    chars_of, concat2, concat3, decimal_int, first_index, has_prefix, is_ascii_digit,
    is_ascii_lower, lemma_first_index, lemma_first_index_bounds, lowercase_of, owned, str_eq,
    string_of, to_lower, trim_chars, trim_seq, upper_ascii,
};
use crate::tvfy::seat_state_code;
use indexmap::IndexMap;
use crate::text::opt_str_view;
use vstd::prelude::*;

verus! {

// ---------------------------------------------------------------------------
// Seats and states
// ---------------------------------------------------------------------------

/// The two P39 positions that are seats in this parliament.
pub open spec fn house_of_position(q: Seq<char>) -> Option<House> {
    if q == "Q18912794"@ {
        Some(House::Representatives)
    } else if q == "Q6814428"@ {
        Some(House::Senate)
    } else {
        None
    }
}

pub fn house_position(q: &str) -> (r: Option<House>)
    ensures
        r == house_of_position(q@),
{
    if str_eq(q, "Q18912794") {
        Some(House::Representatives)
    } else if str_eq(q, "Q6814428") {
        Some(House::Senate)
    } else {
        None
    }
}

/// The state a lower-cased full state name names.
pub open spec fn state_of_name(lowered: Seq<char>) -> Option<StateCode> {
    if lowered == "new south wales"@ {
        Some(StateCode::NSW)
    } else if lowered == "victoria"@ {
        Some(StateCode::VIC)
    } else if lowered == "queensland"@ {
        Some(StateCode::QLD)
    } else if lowered == "western australia"@ {
        Some(StateCode::WA)
    } else if lowered == "south australia"@ {
        Some(StateCode::SA)
    } else if lowered == "tasmania"@ {
        Some(StateCode::TAS)
    } else if lowered == "australian capital territory"@ {
        Some(StateCode::ACT)
    } else if lowered == "northern territory"@ {
        Some(StateCode::NT)
    } else {
        None
    }
}

/// A senator's seat label as a state: a full state name in any case, or
/// failing that a bare state code.
pub open spec fn state_of_label(label: Seq<char>) -> Option<StateCode> {
    match state_of_name(lowercase_of(label)) {
        Some(s) => Some(s),
        None => state_of_code(label),
    }
}


pub fn as_state(label: Option<&str>) -> (r: Option<StateCode>)
    ensures
        r == match opt_str_view(label) {
            Some(l) => state_of_label(l),
            None => None,
        },
{
    let label = match label {
        Some(l) => l,
        None => return None,
    };
    let lowered = to_lower(label);
    let l = lowered.as_str();
    let code = if str_eq(l, "new south wales") {
        Some(StateCode::NSW)
    } else if str_eq(l, "victoria") {
        Some(StateCode::VIC)
    } else if str_eq(l, "queensland") {
        Some(StateCode::QLD)
    } else if str_eq(l, "western australia") {
        Some(StateCode::WA)
    } else if str_eq(l, "south australia") {
        Some(StateCode::SA)
    } else if str_eq(l, "tasmania") {
        Some(StateCode::TAS)
    } else if str_eq(l, "australian capital territory") {
        Some(StateCode::ACT)
    } else if str_eq(l, "northern territory") {
        Some(StateCode::NT)
    } else {
        None
    };
    match code {
        Some(c) => Some(c),
        None => StateCode::parse(label),
    }
}

/// `{commons files host}/wiki/Special:FilePath/{file}?width={width}`, the
/// file name percent-encoded.
pub open spec fn thumb_url_spec(host: Seq<char>, file: Seq<char>, width: u32) -> Seq<char> {
    host + "/wiki/Special:FilePath/"@ + uri_component(file) + "?width="@ + decimal_int(width as int)
}

pub fn thumb_url(endpoints: &Endpoints, file: &str, width: u32) -> (r: String)
    ensures
        r@ == thumb_url_spec(endpoints.commons_files@, file@, width),
{
    let encoded = encode_uri_component(file);
    let head = concat3(endpoints.commons_files.as_str(), "/wiki/Special:FilePath/", encoded.as_str());
    let w = crate::text::int_text(width as i64);
    concat3(head.as_str(), "?width=", w.as_str())
}

// ---------------------------------------------------------------------------
// Photo credits
// ---------------------------------------------------------------------------

/// Every `<...>` tag removed: from a `<` to the first `>` after it. A `<`
/// with no `>` after it is kept, as is everything else.
pub open spec fn remove_tags(s: Seq<char>) -> Seq<char>
    decreases s.len(),
{
    if s.len() == 0 {
        Seq::empty()
    } else if s[0] == '<' && first_index(s, '>') >= 0 {
        proof {
            lemma_first_index_bounds(s, '>');
        }
        remove_tags(s.skip(first_index(s, '>') + 1))
    } else {
        seq![s[0]] + remove_tags(s.drop_first())
    }
}

/// A credit with its markup removed and trimmed; when nothing is left, the
/// generic credit.
pub open spec fn credit_text(html: Seq<char>) -> Seq<char> {
    let t = trim_seq(remove_tags(html));
    if t.len() == 0 {
        "Wikimedia Commons"@
    } else {
        t
    }
}

proof fn lemma_remove_tags_tail(s: Seq<char>, i: int)
    requires
        0 <= i < s.len(),
        s[i] == '<',
        forall|k: int| i < k < s.len() ==> s[k] != '>',
    ensures
        remove_tags(s.skip(i)) == s.skip(i),
    decreases s.len() - i,
{
    let t = s.skip(i);
    lemma_first_index(t, '>', t.len() as int);
    assert forall|k: int| 0 <= k < t.len() implies #[trigger] t[k] != '>' by {
        assert(t[k] == s[i + k]);
        if k == 0 {
            assert(s[i] == '<');
        }
    }
    lemma_first_index(t, '>', t.len() as int);
    assert(t.drop_first() =~= s.skip(i + 1));
    lemma_plain_tail(s, i + 1);
    assert(t =~= seq![t[0]] + t.drop_first());
}

/// A tail with no `>` at all has no tag to remove.
proof fn lemma_plain_tail(s: Seq<char>, i: int)
    requires
        0 <= i <= s.len(),
        forall|k: int| i <= k < s.len() ==> s[k] != '>',
    ensures
        remove_tags(s.skip(i)) == s.skip(i),
    decreases s.len() - i,
{
    let t = s.skip(i);
    if t.len() > 0 {
        assert forall|k: int| 0 <= k < t.len() implies #[trigger] t[k] != '>' by {
            assert(t[k] == s[i + k]);
        }
        lemma_first_index(t, '>', t.len() as int);
        assert(t.drop_first() =~= s.skip(i + 1));
        lemma_plain_tail(s, i + 1);
        assert(t =~= seq![t[0]] + t.drop_first());
    } else {
        assert(t =~= Seq::<char>::empty());
    }
}

fn remove_tags_exec(v: &Vec<char>) -> (r: Vec<char>)
    ensures
        r@ == remove_tags(v@),
{
    let mut out: Vec<char> = Vec::new();
    let mut i: usize = 0;
    assert(v@.skip(0) =~= v@);
    assert(out@ + remove_tags(v@) =~= remove_tags(v@));
    while i < v.len()
        invariant
            i <= v@.len(),
            remove_tags(v@) == out@ + remove_tags(v@.skip(i as int)),
        decreases v@.len() - i,
    {
        let ghost t = v@.skip(i as int);
        if v[i] == '<' {
            let mut j: usize = i + 1;
            while j < v.len() && v[j] != '>'
                invariant
                    i < j <= v@.len(),
                    forall|k: int| i < k < j ==> v@[k] != '>',
                decreases v@.len() - j,
            {
                j = j + 1;
            }
            if j < v.len() {
                proof {
                    assert forall|k: int| 0 <= k < j - i implies #[trigger] t[k] != '>' by {
                        assert(t[k] == v@[i + k]);
                    }
                    assert(t[j - i] == v@[j as int]);
                    lemma_first_index(t, '>', j - i);
                    assert(t.skip(j - i + 1) =~= v@.skip(j + 1));
                }
                i = j + 1;
            } else {
                proof {
                    lemma_remove_tags_tail(v@, i as int);
                    assert(out@ + t =~= out@ + v@.skip(i as int));
                }
                let mut k: usize = i;
                let ghost base = out@;
                while k < v.len()
                    invariant
                        i <= k <= v@.len(),
                        out@ == base + v@.subrange(i as int, k as int),
                    decreases v@.len() - k,
                {
                    out.push(v[k]);
                    proof {
                        assert(v@.subrange(i as int, k + 1) =~= v@.subrange(i as int, k as int).push(v@[k as int]));
                    }
                    k = k + 1;
                }
                proof {
                    assert(v@.subrange(i as int, v@.len() as int) =~= v@.skip(i as int));
                    assert(v@.skip(v@.len() as int) =~= Seq::<char>::empty());
                }
                i = v.len();
            }
        } else {
            proof {
                assert(t.drop_first() =~= v@.skip(i + 1));
                assert(t[0] == v@[i as int]);
            }
            let ghost before = out@;
            out.push(v[i]);
            proof {
                assert(before + (seq![t[0]] + remove_tags(t.drop_first())) =~= out@ + remove_tags(v@.skip(i + 1)));
            }
            i = i + 1;
        }
    }
    proof {
        assert(v@.skip(v@.len() as int) =~= Seq::<char>::empty());
        assert(out@ + Seq::<char>::empty() =~= out@);
    }
    out
}

/// A Commons credit as plain text: markup removed and trimmed, with a generic
/// credit when only markup was there.
pub fn strip_html(html: &str) -> (r: String)
    ensures
        r@ == credit_text(html@),
{
    let v = chars_of(html);
    let stripped = remove_tags_exec(&v);
    let t = trim_chars(&stripped);
    if t.len() == 0 {
        owned("Wikimedia Commons")
    } else {
        string_of(&t)
    }
}

// ---------------------------------------------------------------------------
// Free licences
// ---------------------------------------------------------------------------

/// `c` matches the pattern letter `l` case-insensitively, as Unicode simple
/// case folding has it (the long s folds to `s`).
pub open spec fn ci(c: char, l: char) -> bool {
    c == l || (is_ascii_lower(l) && c == upper_ascii(l)) || (l == 's' && c == '\u{17f}')
}

pub open spec fn ci_prefix(s: Seq<char>, lit: Seq<char>) -> bool {
    lit.len() <= s.len() && forall|i: int| 0 <= i < lit.len() ==> ci(#[trigger] s[i], lit[i])
}

/// `cc.by(.sa)?.\d` at the front, `.` being any character but a newline and
/// `\d` any decimal digit.
pub open spec fn cc_by_prefix(s: Seq<char>) -> bool {
    &&& s.len() >= 7
    &&& ci(s[0], 'c') && ci(s[1], 'c') && s[2] != '\n' && ci(s[3], 'b') && ci(s[4], 'y')
    &&& s[5] != '\n'
    &&& (crate::text::is_decimal_digit(s[6]) || (s.len() >= 10 && ci(s[6], 's') && ci(s[7], 'a') && s[8]
        != '\n' && crate::text::is_decimal_digit(s[9])))
}

/// The licences whose photos may be reproduced, matched at the start of the
/// licence name, in any case: CC0, CC BY and BY-SA with a version, public
/// domain, PD, no restrictions, attribution.
pub open spec fn free_licence(s: Seq<char>) -> bool {
    ci_prefix(s, "cc0"@) || cc_by_prefix(s) || ci_prefix(s, "public domain"@) || ci_prefix(
        s,
        "pd"@,
    ) || ci_prefix(s, "no restrictions"@) || ci_prefix(s, "attribution"@)
}

fn ci_exec(c: char, l: char) -> (r: bool)
    ensures
        r == ci(c, l),
{
    if c == l {
        return true;
    }
    if 'a' <= l && l <= 'z' {
        let up = crate::text::to_upper_ascii(l);
        if c == up {
            return true;
        }
    }
    l == 's' && c == '\u{17f}'
}

fn ci_prefix_exec(v: &Vec<char>, lit: &str) -> (r: bool)
    ensures
        r == ci_prefix(v@, lit@),
{
    let p = chars_of(lit);
    if p.len() > v.len() {
        return false;
    }
    let mut i: usize = 0;
    while i < p.len()
        invariant
            i <= p@.len() <= v@.len(),
            p@ == lit@,
            forall|k: int| 0 <= k < i ==> ci(#[trigger] v@[k], p@[k]),
        decreases p@.len() - i,
    {
        if !ci_exec(v[i], p[i]) {
            return false;
        }
        i = i + 1;
    }
    true
}


/// Whether a photo's licence lets it be reproduced.
pub fn is_free_licence(licence: &str) -> (r: bool)
    ensures
        r == free_licence(licence@),
{
    let v = chars_of(licence);
    if ci_prefix_exec(&v, "cc0") {
        return true;
    }
    let cc_by = v.len() >= 7 && ci_exec(v[0], 'c') && ci_exec(v[1], 'c') && v[2] != '\n' && ci_exec(
        v[3],
        'b',
    ) && ci_exec(v[4], 'y') && v[5] != '\n' && (crate::text::decimal_digit(v[6]) || (v.len() >= 10 && ci_exec(
        v[6],
        's',
    ) && ci_exec(v[7], 'a') && v[8] != '\n' && crate::text::decimal_digit(v[9])));
    cc_by || ci_prefix_exec(&v, "public domain") || ci_prefix_exec(&v, "pd") || ci_prefix_exec(
        &v,
        "no restrictions",
    ) || ci_prefix_exec(&v, "attribution")
}


// ---------------------------------------------------------------------------
// SPARQL rows
// ---------------------------------------------------------------------------

/// One SPARQL result row: each bound variable with its value text.
#[derive(Debug, Clone)]
pub struct Binding {
    pub fields: Vec<(String, String)>,
}

/// The value bound to a variable: the first field carrying the name.
pub open spec fn field_of(fields: Seq<(String, String)>, key: Seq<char>) -> Option<Seq<char>>
    decreases fields.len(),
{
    if fields.len() == 0 {
        None
    } else if fields[0].0@ == key {
        Some(fields[0].1@)
    } else {
        field_of(fields.drop_first(), key)
    }
}

pub open spec fn bound(b: Binding, key: Seq<char>) -> Option<Seq<char>> {
    field_of(b.fields@, key)
}

pub fn binding_value(binding: &Binding, key: &str) -> (r: Option<String>)
    ensures
        opt_view(r) == bound(*binding, key@),
{
    let fields = &binding.fields;
    let mut i: usize = 0;
    assert(fields@.skip(0) =~= fields@);
    while i < fields.len()
        invariant
            i <= fields@.len(),
            bound(*binding, key@) == field_of(fields@.skip(i as int), key@),
            fields == &binding.fields,
        decreases fields@.len() - i,
    {
        proof {
            assert(fields@.skip(i as int).drop_first() =~= fields@.skip(i + 1));
            assert(fields@.skip(i as int)[0] == fields@[i as int]);
        }
        if str_eq(fields[i].0.as_str(), key) {
            return Some(fields[i].1.clone());
        }
        i = i + 1;
    }
    None
}

/// The text after the last `c` (all of it when there is none): what
/// `rsplit(c).next()` gives.
pub open spec fn after_last(s: Seq<char>, c: char) -> Seq<char>
    decreases s.len(),
{
    if s.len() == 0 {
        s
    } else if s.last() == c {
        Seq::empty()
    } else {
        after_last(s.drop_last(), c).push(s.last())
    }
}

pub fn after_last_exec(s: &str, c: char) -> (r: String)
    ensures
        r@ == after_last(s@, c),
{
    let v = chars_of(s);
    let mut start: usize = 0;
    let mut i: usize = 0;
    while i < v.len()
        invariant
            start <= i <= v@.len(),
            after_last(v@.take(i as int), c) == v@.subrange(start as int, i as int),
        decreases v@.len() - i,
    {
        proof {
            assert(v@.take(i + 1).drop_last() =~= v@.take(i as int));
        }
        if v[i] == c {
            start = i + 1;
            proof {
                assert(v@.subrange(start as int, i + 1) =~= Seq::<char>::empty());
            }
        } else {
            proof {
                assert(v@.subrange(start as int, i + 1) =~= v@.subrange(start as int, i as int).push(v@[i as int]));
            }
        }
        i = i + 1;
    }
    proof {
        assert(v@.take(v@.len() as int) =~= v@);
    }
    crate::text::string_of(&crate::text::sub_chars(&v, start, v.len()))
}

/// Where the last piece of `s.split(pat)` starts, scanning for matches left
/// to right from `i`, the last match so far ending at `start`.
pub open spec fn piece_start(s: Seq<char>, pat: Seq<char>, i: int, start: int) -> int
    decreases s.len() - i,
{
    if pat.len() == 0 || i < 0 || i + pat.len() > s.len() {
        start
    } else if has_prefix(s.skip(i), pat) {
        piece_start(s, pat, i + pat.len(), i + pat.len())
    } else {
        piece_start(s, pat, i + 1, start)
    }
}

/// `s.split(pat).last()`: the text after the last of the non-overlapping
/// matches found left to right.
pub open spec fn last_piece(s: Seq<char>, pat: Seq<char>) -> Seq<char> {
    s.skip(piece_start(s, pat, 0, 0))
}

proof fn lemma_piece_start_bounds(s: Seq<char>, pat: Seq<char>, i: int, start: int)
    requires
        0 <= start <= s.len(),
        0 <= i,
        start <= i || i + pat.len() > s.len(),
    ensures
        0 <= piece_start(s, pat, i, start) <= s.len(),
    decreases s.len() - i,
{
    if pat.len() == 0 || i + pat.len() > s.len() {
    } else if has_prefix(s.skip(i), pat) {
        lemma_piece_start_bounds(s, pat, i + pat.len(), i + pat.len());
    } else {
        lemma_piece_start_bounds(s, pat, i + 1, start);
    }
}

pub fn last_piece_exec(s: &str, pat: &str) -> (r: String)
    requires
        pat@.len() > 0,
    ensures
        r@ == last_piece(s@, pat@),
{
    let v = chars_of(s);
    let p = chars_of(pat);
    let mut i: usize = 0;
    let mut start: usize = 0;
    while i <= v.len() && p.len() <= v.len() - i
        invariant
            start <= i,
            start <= v@.len(),
            p@ == pat@,
            p@.len() > 0,
            piece_start(v@, p@, 0, 0) == piece_start(v@, p@, i as int, start as int),
        decreases v@.len() + 1 - i,
    {
        if crate::text::occurs_at(&v, i, &p) {
            i = i + p.len();
            start = i;
        } else {
            i = i + 1;
        }
    }
    proof {
        lemma_piece_start_bounds(v@, p@, i as int, start as int);
    }
    crate::text::string_of(&crate::text::sub_chars(&v, start, v.len()))
}

/// The text of a percent-encoded string decoded, with byte sequences that
/// are not UTF-8 replaced by U+FFFD; what percent_encoding gives. Its
/// decoding rules take pages, so the result is named.
pub uninterp spec fn percent_decoded(s: Seq<char>) -> Seq<char>;

/// `percent_decode_str(..).decode_utf8_lossy()` from percent_encoding.
#[verifier::external_body]
fn percent_decode_lossy(s: &str) -> (r: String)
    ensures
        r@ == percent_decoded(s@),
{
    percent_encoding::percent_decode_str(s).decode_utf8_lossy().into_owned()
}

/// A current member as Wikidata describes them.
#[derive(Debug, Clone)]
pub struct RawMember {
    pub wikidata: String,
    pub name: String,
    pub house: House,
    pub group: Option<String>,
    pub district: Option<String>,
    pub commons_file: Option<String>,
    pub since: Option<String>,
    pub wikipedia: Option<String>,
}

pub open spec fn or_empty_view(o: Option<Seq<char>>) -> Seq<char> {
    match o {
        Some(s) => s,
        None => Seq::empty(),
    }
}

/// The chamber a row's position names, if it is a seat.
pub open spec fn row_house(b: Binding) -> Option<House> {
    house_of_position(after_last(or_empty_view(bound(b, "houseQ"@)), '/'))
}

/// A row counts when it names a person, a label and a seat.
pub open spec fn row_counts(b: Binding) -> bool {
    bound(b, "person"@) is Some && bound(b, "personLabel"@) is Some && row_house(b) is Some
}

pub open spec fn row_uri(b: Binding) -> Seq<char> {
    or_empty_view(bound(b, "person"@))
}

pub open spec fn row_start(b: Binding) -> Seq<char> {
    or_empty_view(bound(b, "start"@))
}

/// Position of the first kept row for the person, or -1.
pub open spec fn row_index(rows: Seq<Binding>, uri: Seq<char>) -> int
    decreases rows.len(),
{
    if rows.len() == 0 {
        -1
    } else {
        let r = row_index(rows.drop_last(), uri);
        if r >= 0 {
            r
        } else if row_uri(rows.last()) == uri {
            rows.len() - 1
        } else {
            -1
        }
    }
}

proof fn lemma_row_index(rows: Seq<Binding>, uri: Seq<char>)
    ensures
        -1 <= row_index(rows, uri) < rows.len(),
        row_index(rows, uri) >= 0 ==> row_uri(rows[row_index(rows, uri)]) == uri,
        row_index(rows, uri) < 0 ==> forall|j: int| 0 <= j < rows.len() ==> row_uri(#[trigger] rows[j]) != uri,
    decreases rows.len(),
{
    if rows.len() > 0 {
        lemma_row_index(rows.drop_last(), uri);
        assert forall|j: int| 0 <= j < rows.len() - 1 implies rows[j] == rows.drop_last()[j] by {}
    }
}

proof fn lemma_row_index_prefix(rows: Seq<Binding>, uri: Seq<char>, n: int)
    requires
        0 <= n <= rows.len(),
        row_index(rows.take(n), uri) >= 0,
    ensures
        row_index(rows, uri) == row_index(rows.take(n), uri),
    decreases rows.len() - n,
{
    if n < rows.len() {
        assert(rows.take(n + 1).drop_last() =~= rows.take(n));
        lemma_row_index_prefix(rows, uri, n + 1);
    } else {
        assert(rows.take(n) =~= rows);
    }
}

/// The row kept for each person, in first-seen order: a person can carry
/// several open statements, and the one with the latest start date wins.
pub open spec fn kept_rows(rows: Seq<Binding>) -> Seq<Binding>
    decreases rows.len(),
{
    if rows.len() == 0 {
        Seq::empty()
    } else {
        let prev = kept_rows(rows.drop_last());
        let b = rows.last();
        if !row_counts(b) {
            prev
        } else {
            let i = row_index(prev, row_uri(b));
            if i >= 0 {
                if !text_less(row_start(prev[i]), row_start(b)) {
                    prev
                } else {
                    prev.update(i, b)
                }
            } else {
                prev.push(b)
            }
        }
    }
}

/// The member a kept row describes.
pub open spec fn member_of_row(b: Binding, m: RawMember) -> bool {
    &&& m.wikidata@ == after_last(row_uri(b), '/')
    &&& Some(m.name@) == bound(b, "personLabel"@)
    &&& Some(m.house) == row_house(b)
    &&& opt_view(m.group) == bound(b, "partyLabel"@)
    &&& opt_view(m.district) == bound(b, "electorateLabel"@)
    &&& opt_view(m.commons_file) == match bound(b, "img"@) {
        Some(img) => Some(percent_decoded(last_piece(img, "/Special:FilePath/"@))),
        None => None,
    }
    &&& opt_view(m.since) == if row_start(b).len() == 0 {
        None
    } else {
        Some(row_start(b))
    }
    &&& opt_view(m.wikipedia) == bound(b, "article"@)
}

fn value_or_empty(b: &Binding, key: &str) -> (r: String)
    ensures
        r@ == or_empty_view(bound(*b, key@)),
{
    proof {
        reveal_strlit("");
    }
    match binding_value(b, key) {
        Some(v) => v,
        None => owned(""),
    }
}

fn row_house_exec(b: &Binding) -> (r: Option<House>)
    ensures
        r == row_house(*b),
{
    let hq = value_or_empty(b, "houseQ");
    let q = after_last_exec(hq.as_str(), '/');
    house_position(q.as_str())
}

fn member_from_row(b: &Binding) -> (m: RawMember)
    requires
        row_counts(*b),
    ensures
        member_of_row(*b, m),
{
    let uri = value_or_empty(b, "person");
    let name = match binding_value(b, "personLabel") {
        Some(n) => n,
        None => owned(""),
    };
    let house = match row_house_exec(b) {
        Some(h) => h,
        None => House::Representatives,
    };
    let start = value_or_empty(b, "start");
    let commons_file = match binding_value(b, "img") {
        Some(img) => {
            proof {
                reveal_strlit("/Special:FilePath/");
            }
            let after = last_piece_exec(img.as_str(), "/Special:FilePath/");
            Some(percent_decode_lossy(after.as_str()))
        },
        None => None,
    };
    let since = if start.as_str().unicode_len() == 0 {
        None
    } else {
        Some(start)
    };
    RawMember {
        wikidata: after_last_exec(uri.as_str(), '/'),
        name,
        house,
        group: binding_value(b, "partyLabel"),
        district: binding_value(b, "electorateLabel"),
        commons_file,
        since,
        wikipedia: binding_value(b, "article"),
    }
}

fn row_counts_exec(b: &Binding) -> (r: bool)
    ensures
        r == row_counts(*b),
{
    binding_value(b, "person").is_some() && binding_value(b, "personLabel").is_some()
        && row_house_exec(b).is_some()
}

pub open spec fn rows_at(rows: Seq<Binding>, idx: Seq<usize>) -> Seq<Binding> {
    idx.map_values(|i: usize| rows[i as int])
}

/// One member per person, in the order people were first seen, each from
/// their row with the latest start date. Rows without a person, a label or
/// a seat position drop out.
pub fn dedupe(bindings: &[Binding]) -> (r: Vec<RawMember>)
    ensures
        r@.len() == kept_rows(bindings@).len(),
        forall|i: int| 0 <= i < r@.len() ==> member_of_row(kept_rows(bindings@)[i], #[trigger] r@[i]),
{
    let mut kept: Vec<usize> = Vec::new();
    let mut t: usize = 0;
    while t < bindings.len()
        invariant
            t <= bindings@.len(),
            forall|k: int| 0 <= k < kept@.len() ==> #[trigger] kept@[k] < bindings@.len(),
            rows_at(bindings@, kept@) == kept_rows(bindings@.take(t as int)),
        decreases bindings@.len() - t,
    {
        let b = &bindings[t];
        let ghost prev = kept_rows(bindings@.take(t as int));
        proof {
            assert(bindings@.take(t + 1).drop_last() =~= bindings@.take(t as int));
            assert(bindings@.take(t + 1).last() == bindings@[t as int]);
        }
        if row_counts_exec(b) {
            let uri = value_or_empty(b, "person");
            let start = value_or_empty(b, "start");
            let mut k: usize = 0;
            let mut found: Option<usize> = None;
            while k < kept.len()
                invariant
                    k <= kept@.len(),
                    t < bindings@.len(),
                    forall|j: int| 0 <= j < kept@.len() ==> #[trigger] kept@[j] < bindings@.len(),
                    prev == rows_at(bindings@, kept@),
                    uri@ == row_uri(bindings@[t as int]),
                    match found {
                        Some(f) => f < k && f as int == row_index(prev, uri@),
                        None => row_index(prev.take(k as int), uri@) == -1,
                    },
                decreases kept@.len() - k,
            {
                if found.is_none() {
                    proof {
                        assert(prev.take(k + 1).drop_last() =~= prev.take(k as int));
                        assert(prev[k as int] == bindings@[kept@[k as int] as int]);
                    }
                    let other = value_or_empty(&bindings[kept[k]], "person");
                    if str_eq(other.as_str(), uri.as_str()) {
                        found = Some(k);
                        proof {
                            lemma_row_index_prefix(prev, uri@, k + 1);
                        }
                    }
                }
                k = k + 1;
            }
            proof {
                if found.is_none() {
                    assert(prev.take(kept@.len() as int) =~= prev);
                }
                lemma_row_index(prev, uri@);
            }
            match found {
                Some(f) => {
                    let existing = value_or_empty(&bindings[kept[f]], "start");
                    if str_less(existing.as_str(), start.as_str()) {
                        let ghost before = kept@;
                        kept.set(f, t);
                        proof {
                            assert(rows_at(bindings@, kept@) =~= prev.update(f as int, bindings@[t as int]));
                        }
                    }
                },
                None => {
                    kept.push(t);
                    proof {
                        assert(rows_at(bindings@, kept@) =~= prev.push(bindings@[t as int]));
                    }
                },
            }
        }
        t = t + 1;
    }
    proof {
        assert(bindings@.take(bindings@.len() as int) =~= bindings@);
    }
    let ghost rows = kept_rows(bindings@);
    let mut out: Vec<RawMember> = Vec::new();
    let mut i: usize = 0;
    while i < kept.len()
        invariant
            i <= kept@.len(),
            out@.len() == i,
            forall|k: int| 0 <= k < kept@.len() ==> #[trigger] kept@[k] < bindings@.len(),
            rows_at(bindings@, kept@) == rows,
            rows == kept_rows(bindings@),
            forall|k: int| 0 <= k < i ==> member_of_row(rows[k], #[trigger] out@[k]),
        decreases kept@.len() - i,
    {
        proof {
            assert(rows[i as int] == bindings@[kept@[i as int] as int]);
            lemma_kept_rows_count(bindings@);
            assert(rows.len() == kept@.len());
            assert(row_counts(kept_rows(bindings@)[i as int]));
        }
        let m = member_from_row(&bindings[kept[i]]);
        out.push(m);
        i = i + 1;
    }
    out
}

/// One member per person: the kept rows name each person once, and each is
/// a usable row of the input.
pub proof fn law_one_member_per_person(rows: Seq<Binding>)
    ensures
        forall|a: int, b: int|
            0 <= a < b < kept_rows(rows).len() ==> row_uri(#[trigger] kept_rows(rows)[a]) != row_uri(
                #[trigger] kept_rows(rows)[b],
            ),
        forall|a: int| 0 <= a < kept_rows(rows).len() ==> row_counts(#[trigger] kept_rows(rows)[a]) && rows.contains(kept_rows(rows)[a]),
    decreases rows.len(),
{
    if rows.len() > 0 {
        let rest = rows.drop_last();
        let b = rows.last();
        let prev = kept_rows(rest);
        law_one_member_per_person(rest);
        lemma_row_index(prev, row_uri(b));
        let k = kept_rows(rows);
        assert forall|a: int| 0 <= a < k.len() implies row_counts(#[trigger] k[a]) && rows.contains(k[a]) by {
            if k[a] == b {
                assert(rows[rows.len() - 1] == b);
            } else {
                assert(k[a] == prev[a]);
                assert(rest.contains(prev[a]));
                let j = choose|j: int| 0 <= j < rest.len() && rest[j] == prev[a];
                assert(rows[j] == rest[j]);
            }
        }
    }
}

/// Every kept row counts.
proof fn lemma_kept_rows_count(rows: Seq<Binding>)
    ensures
        forall|i: int| 0 <= i < kept_rows(rows).len() ==> row_counts(#[trigger] kept_rows(rows)[i]),
    decreases rows.len(),
{
    if rows.len() > 0 {
        lemma_kept_rows_count(rows.drop_last());
        lemma_row_index(kept_rows(rows.drop_last()), row_uri(rows.last()));
    }
}


// ---------------------------------------------------------------------------
// Members to people
// ---------------------------------------------------------------------------

/// A Commons file's licence and credit.
#[derive(Debug, Clone)]
pub struct CommonsLicence {
    pub licence: String,
    pub attribution: String,
}

/// What a map from Commons file names to licences holds, in insertion order:
/// each file name with its licence and credit.
pub uninterp spec fn licence_entries(m: IndexMap<String, CommonsLicence>) -> Seq<
    (Seq<char>, (Seq<char>, Seq<char>)),
>;

/// `IndexMap::get`, the licence copied out.
#[verifier::external_body]
fn licence_get(m: &IndexMap<String, CommonsLicence>, file: &str) -> (r: Option<CommonsLicence>)
    ensures
        match r {
            Some(l) => entries_get(licence_entries(*m), file@) == Some((l.licence@, l.attribution@)),
            None => entries_get(licence_entries(*m), file@) is None,
        },
{
    match m.get(file) {
        Some(l) => Some(CommonsLicence { licence: l.licence.clone(), attribution: l.attribution.clone() }),
        None => None,
    }
}

/// What tells two people of one name apart: their seat, else their chamber.
pub open spec fn slug_extra(m: RawMember) -> Seq<char> {
    match m.district {
        Some(d) => d@,
        None => house_name(m.house),
    }
}

/// Each member's slug: of their name, or, when an earlier member took it,
/// of their name and seat.
pub open spec fn member_slugs(ms: Seq<RawMember>) -> Seq<Seq<char>>
    decreases ms.len(),
{
    if ms.len() == 0 {
        Seq::empty()
    } else {
        let prev = member_slugs(ms.drop_last());
        let m = ms.last();
        let s = slugify_spec(m.name@);
        if prev.contains(s) {
            prev.push(slugify_spec(m.name@ + " "@ + slug_extra(m)))
        } else {
            prev.push(s)
        }
    }
}

pub proof fn lemma_member_slugs_len(ms: Seq<RawMember>)
    ensures
        member_slugs(ms).len() == ms.len(),
    decreases ms.len(),
{
    if ms.len() > 0 {
        lemma_member_slugs_len(ms.drop_last());
    }
}

/// A member without a party statement is an independent.
pub open spec fn group_name(m: RawMember) -> Seq<char> {
    match m.group {
        Some(g) => g@,
        None => "Independent"@,
    }
}

/// At most the first ten characters (a date out of a timestamp).
pub open spec fn first_ten(s: Seq<char>) -> Seq<char> {
    if s.len() <= 10 {
        s
    } else {
        s.take(10)
    }
}

pub open spec fn is_senate(h: House) -> bool {
    h == House::Senate
}

/// The photo a member gets: only a file whose licence is free.
pub open spec fn photo_of(p: Option<Photo>, m: RawMember, lic: Seq<(Seq<char>, (Seq<char>, Seq<char>))>, host: Seq<char>) -> bool {
    match m.commons_file {
        Some(f) => match entries_get(lic, f@) {
            Some(l) => if free_licence(l.0) {
                p is Some && p.unwrap().commons_file@ == f@ && p.unwrap().url@ == thumb_url_spec(
                    host,
                    f@,
                    400,
                ) && p.unwrap().licence@ == l.0 && p.unwrap().attribution@ == l.1
                    && p.unwrap().thumb is None && p.unwrap().thumb_large is None
            } else {
                p is None
            },
            None => p is None,
        },
        None => p is None,
    }
}

/// The person a member becomes under a given slug.
pub open spec fn person_of_member(p: Person, m: RawMember, slug: Seq<char>, lic: Seq<(Seq<char>, (Seq<char>, Seq<char>))>, host: Seq<char>) -> bool {
    &&& p.slug@ == slug
    &&& p.name@ == m.name@
    &&& p.house == m.house
    &&& p.state == if is_senate(m.house) {
        match opt_view(m.district) {
            Some(d) => state_of_label(d),
            None => None,
        }
    } else {
        None
    }
    &&& opt_view(p.electorate) == if !is_senate(m.house) && m.district is Some {
        Some(slugify_spec(m.district.unwrap()@))
    } else {
        None
    }
    &&& p.group@ == group_name(m)
    &&& p.group_slug@ == slugify_spec(group_name(m))
    &&& opt_view(p.since) == match m.since {
        Some(s) => Some(first_ten(s@)),
        None => None,
    }
    &&& opt_view(p.ids.wikidata) == Some(m.wikidata@)
    &&& p.ids.tvfy is None && p.ids.aph is None && p.ids.aec_candidate is None
    &&& photo_of(p.photo, m, lic, host)
    &&& opt_view(p.links.wikipedia) == opt_view(m.wikipedia)
    &&& p.ai_note is None && p.background is None && p.positions is None && p.elections is None
        && p.stats is None
}

/// A person's start date is the date part of the member's start timestamp:
/// its first ten characters (all of it when shorter); a person has a start
/// date exactly when the member has one.
pub proof fn law_since_is_the_timestamp_date(
    p: Person,
    m: RawMember,
    slug: Seq<char>,
    lic: Seq<(Seq<char>, (Seq<char>, Seq<char>))>,
    host: Seq<char>,
)
    requires
        person_of_member(p, m, slug, lic, host),
    ensures
        p.since is Some <==> m.since is Some,
        m.since is Some ==> {
            let s = m.since.unwrap()@;
            let t = p.since.unwrap()@;
            &&& t.len() == if s.len() < 10 {
                s.len()
            } else {
                10
            }
            &&& forall|i: int| 0 <= i < t.len() ==> t[i] == s[i]
        },
{
}

/// A person keeps the member's name, chamber and Wikidata id; its group is
/// the member's party, Independent when none is given; a member of the
/// House of Representatives has no state, and a senator has no electorate.
pub proof fn law_person_keeps_the_member(
    p: Person,
    m: RawMember,
    slug: Seq<char>,
    lic: Seq<(Seq<char>, (Seq<char>, Seq<char>))>,
    host: Seq<char>,
)
    requires
        person_of_member(p, m, slug, lic, host),
    ensures
        p.slug@ == slug,
        p.name@ == m.name@,
        p.house == m.house,
        p.ids.wikidata is Some && p.ids.wikidata.unwrap()@ == m.wikidata@,
        m.group is Some ==> p.group@ == m.group.unwrap()@,
        m.group is None ==> p.group@ == "Independent"@,
        m.house == House::Representatives ==> p.state is None,
        m.house == House::Senate ==> p.electorate is None,
        m.district is None ==> p.state is None && p.electorate is None,
{
}

fn first_ten_exec(s: &str) -> (r: String)
    ensures
        r@ == first_ten(s@),
{
    let v = chars_of(s);
    if v.len() <= 10 {
        string_of(&v)
    } else {
        string_of(&crate::text::sub_chars(&v, 0, 10))
    }
}

fn contains_text(v: &Vec<String>, s: &str) -> (r: bool)
    ensures
        r == crate::text::string_views(v@).contains(s@),
{
    let mut i: usize = 0;
    while i < v.len()
        invariant
            i <= v@.len(),
            forall|k: int| 0 <= k < i ==> v@[k]@ != s@,
        decreases v@.len() - i,
    {
        if str_eq(v[i].as_str(), s) {
            proof {
                assert(crate::text::string_views(v@)[i as int] == s@);
            }
            return true;
        }
        i = i + 1;
    }
    proof {
        if crate::text::string_views(v@).contains(s@) {
            let k = choose|k: int| 0 <= k < v@.len() && crate::text::string_views(v@)[k] == s@;
            assert(v@[k]@ == s@);
        }
    }
    false
}

fn photo_for(endpoints: &Endpoints, m: &RawMember, licences: &IndexMap<String, CommonsLicence>) -> (r: Option<Photo>)
    ensures
        photo_of(r, *m, licence_entries(*licences), endpoints.commons_files@),
{
    match &m.commons_file {
        Some(file) => match licence_get(licences, file.as_str()) {
            Some(lic) => {
                if is_free_licence(lic.licence.as_str()) {
                    Some(
                        Photo {
                            commons_file: file.clone(),
                            url: thumb_url(endpoints, file.as_str(), 400),
                            licence: lic.licence,
                            attribution: lic.attribution,
                            thumb: None,
                            thumb_large: None,
                        },
                    )
                } else {
                    None
                }
            },
            None => None,
        },
        None => None,
    }
}

fn person_from_member(endpoints: &Endpoints, m: &RawMember, slug: String, licences: &IndexMap<String, CommonsLicence>) -> (p: Person)
    ensures
        person_of_member(p, *m, slug@, licence_entries(*licences), endpoints.commons_files@),
{
    let group = match &m.group {
        Some(g) => g.clone(),
        None => owned("Independent"),
    };
    let is_senator = match m.house {
        House::Senate => true,
        House::Representatives => false,
    };
    let state = if is_senator {
        match &m.district {
            Some(d) => as_state(Some(d.as_str())),
            None => None,
        }
    } else {
        None
    };
    let electorate = match &m.district {
        Some(d) => if !is_senator {
            Some(slugify(d.as_str()))
        } else {
            None
        },
        None => None,
    };
    let since = match &m.since {
        Some(s) => Some(first_ten_exec(s.as_str())),
        None => None,
    };
    let group_slug = slugify(group.as_str());
    Person {
        slug,
        name: m.name.clone(),
        house: m.house,
        state,
        electorate,
        group,
        group_slug,
        since,
        ids: PersonIds { wikidata: Some(m.wikidata.clone()), tvfy: None, aph: None, aec_candidate: None },
        photo: photo_for(endpoints, m, licences),
        links: PersonLinks { wikipedia: match &m.wikipedia {
            Some(w) => Some(w.clone()),
            None => None,
        } },
        ai_note: None,
        background: None,
        positions: None,
        elections: None,
        stats: None,
    }
}

/// Members become people: each with a unique slug, a state for a senator
/// and an electorate slug for a member, Independent when no party is
/// given, and a photo only under a free licence.
pub fn people_from_members(
    endpoints: &Endpoints,
    members: &[RawMember],
    licences: &IndexMap<String, CommonsLicence>,
) -> (r: Vec<Person>)
    ensures
        r@.len() == members@.len(),
        forall|i: int|
            0 <= i < r@.len() ==> person_of_member(
                #[trigger] r@[i],
                members@[i],
                member_slugs(members@)[i],
                licence_entries(*licences),
                endpoints.commons_files@,
            ),
{
    let mut people: Vec<Person> = Vec::new();
    let mut taken: Vec<String> = Vec::new();
    let mut i: usize = 0;
    while i < members.len()
        invariant
            i <= members@.len(),
            people@.len() == i,
            crate::text::string_views(taken@) == member_slugs(members@.take(i as int)),
            forall|k: int|
                0 <= k < i ==> person_of_member(
                    #[trigger] people@[k],
                    members@[k],
                    member_slugs(members@.take(i as int))[k],
                    licence_entries(*licences),
                    endpoints.commons_files@,
                ),
        decreases members@.len() - i,
    {
        let m = &members[i];
        let ghost prev = member_slugs(members@.take(i as int));
        proof {
            assert(members@.take(i + 1).drop_last() =~= members@.take(i as int));
            assert(members@.take(i + 1).last() == members@[i as int]);
            lemma_member_slugs_len(members@.take(i as int));
        }
        let first = slugify(m.name.as_str());
        let slug = if contains_text(&taken, first.as_str()) {
            let extra = match &m.district {
                Some(d) => d.clone(),
                None => owned(m.house.as_str()),
            };
            let full = concat3(m.name.as_str(), " ", extra.as_str());
            slugify(full.as_str())
        } else {
            first
        };
        let ghost now = member_slugs(members@.take(i + 1));
        proof {
            assert(now == prev.push(slug@));
            assert forall|k: int| 0 <= k < i implies now[k] == prev[k] by {}
        }
        let ghost before_taken = taken@;
        taken.push(slug.clone());
        proof {
            assert(crate::text::string_views(taken@) =~= crate::text::string_views(before_taken).push(slug@));
        }
        let p = person_from_member(endpoints, m, slug, licences);
        people.push(p);
        i = i + 1;
    }
    proof {
        assert(members@.take(members@.len() as int) =~= members@);
    }
    people
}


// ---------------------------------------------------------------------------
// Party facts
// ---------------------------------------------------------------------------

/// The parliamentary groups to look up, by slug, each with its name as last
/// written; independents are not a party.
pub open spec fn group_entries(people: Seq<Person>) -> Seq<(Seq<char>, Seq<char>)>
    decreases people.len(),
{
    if people.len() == 0 {
        Seq::empty()
    } else {
        let prev = group_entries(people.drop_last());
        let p = people.last();
        if p.group_slug@ == "independent"@ {
            prev
        } else {
            crate::collections::entries_insert(prev, p.group_slug@, p.group@)
        }
    }
}

pub fn party_groups(people: &[Person]) -> (r: IndexMap<String, String>)
    ensures
        text_map_entries(r) == group_entries(people@),
        keys_distinct(text_map_entries(r)),
{
    let mut groups = text_map_new();
    let mut i: usize = 0;
    while i < people.len()
        invariant
            i <= people@.len(),
            text_map_entries(groups) == group_entries(people@.take(i as int)),
            keys_distinct(text_map_entries(groups)),
        decreases people@.len() - i,
    {
        proof {
            assert(people@.take(i + 1).drop_last() =~= people@.take(i as int));
            assert(people@.take(i + 1).last() == people@[i as int]);
        }
        let p = &people[i];
        if !str_eq(p.group_slug.as_str(), "independent") {
            proof {
                law_insert_then_get(text_map_entries(groups), p.group_slug@, p.group@, Seq::empty());
            }
            text_map_insert(&mut groups, p.group_slug.clone(), p.group.clone());
        }
        i = i + 1;
    }
    proof {
        assert(people@.take(people@.len() as int) =~= people@);
    }
    groups
}

/// A group name as a SPARQL English literal, its double quotes dropped.
pub open spec fn label_literal(name: Seq<char>) -> Seq<char> {
    "\""@ + crate::text::replace_seq(name, "\""@, ""@) + "\"@en"@
}

/// The names' literals, separated by spaces.
pub open spec fn label_list(names: Seq<Seq<char>>) -> Seq<char>
    decreases names.len(),
{
    if names.len() == 0 {
        Seq::empty()
    } else if names.len() == 1 {
        label_literal(names[0])
    } else {
        label_list(names.drop_last()) + " "@ + label_literal(names.last())
    }
}

pub open spec fn entry_values(e: Seq<(Seq<char>, Seq<char>)>) -> Seq<Seq<char>> {
    e.map_values(|p: (Seq<char>, Seq<char>)| p.1)
}

pub fn party_labels(groups: &IndexMap<String, String>) -> (r: String)
    ensures
        r@ == label_list(entry_values(text_map_entries(*groups))),
{
    let pairs = text_map_pairs(groups);
    let ghost names = entry_values(text_map_entries(*groups));
    let mut out: Vec<char> = Vec::new();
    let mut i: usize = 0;
    while i < pairs.len()
        invariant
            i <= pairs@.len(),
            names == entry_values(text_entry_views(pairs@)),
            out@ == label_list(names.take(i as int)),
        decreases pairs@.len() - i,
    {
        proof {
            assert(names.take(i + 1).drop_last() =~= names.take(i as int));
            assert(names.take(i + 1).last() == pairs@[i as int].1@);
        }
        let cleaned = crate::text::replace_all(pairs[i].1.as_str(), "\"", "");
        let lit = concat3("\"", cleaned.as_str(), "\"@en");
        let ghost before = out@;
        if i > 0 {
            out.push(' ');
        }
        let mut lc = chars_of(lit.as_str());
        out.append(&mut lc);
        proof {
            if i == 0 {
                assert(names.take(1).len() == 1);
                assert(out@ =~= label_literal(names[0]));
            } else {
                reveal_strlit(" ");
                assert(out@ =~= before + " "@ + label_literal(names[i as int]));
            }
        }
        i = i + 1;
    }
    proof {
        assert(names.take(names.len() as int) =~= names);
    }
    string_of(&out)
}

pub const PARTY_QUERY_HEAD: &'static str = "\nSELECT ?label ?inception ?website ?article WHERE {\n  VALUES ?label { ";

pub const PARTY_QUERY_TAIL: &'static str = " }\n  ?item rdfs:label ?label .\n  ?item wdt:P31 ?type .\n  FILTER(?type IN (wd:Q7278, wd:Q124964, wd:Q1140229))\n  OPTIONAL { ?item wdt:P571 ?inception . }\n  OPTIONAL { ?item wdt:P856 ?website . }\n  OPTIONAL { ?article schema:about ?item ; schema:isPartOf <https://en.wikipedia.org/> . }\n}";

/// The query for the groups' founding dates, websites and articles.
pub fn party_facts_query(labels: &str) -> (r: String)
    ensures
        r@ == PARTY_QUERY_HEAD@ + labels@ + PARTY_QUERY_TAIL@,
{
    concat3(PARTY_QUERY_HEAD, labels, PARTY_QUERY_TAIL)
}

/// Current members: an open P39 (position held) statement with no end date.
pub const MEMBERS_QUERY: &'static str = "\nSELECT ?person ?personLabel ?houseQ ?partyLabel ?electorateLabel ?img ?start ?article WHERE {\n  VALUES ?houseQ { wd:Q18912794 wd:Q6814428 }\n  ?person p:P39 ?ps .\n  ?ps ps:P39 ?houseQ .\n  FILTER NOT EXISTS { ?ps pq:P582 ?end . }\n  OPTIONAL { ?ps pq:P580 ?start . }\n  OPTIONAL { ?ps pq:P768 ?electorate . }\n  OPTIONAL { ?ps pq:P4100 ?party . }\n  OPTIONAL { ?person wdt:P18 ?img . }\n  OPTIONAL { ?article schema:about ?person ; schema:isPartOf <https://en.wikipedia.org/> . }\n  SERVICE wikibase:label { bd:serviceParam wikibase:language \"en\" . }\n}";

/// `{endpoint}?query={query}`, the query percent-encoded.
pub fn sparql_url(endpoint: &str, query: &str) -> (r: String)
    ensures
        r@ == endpoint@ + "?query="@ + uri_component(query@),
{
    let q = encode_uri_component(query);
    concat3(endpoint, "?query=", q.as_str())
}

/// The facts read for a party from one row.
pub open spec fn facts_of_row(b: Binding, f: PartyFacts) -> bool {
    &&& opt_view(f.founded) == match bound(b, "inception"@) {
        Some(v) => Some(first_ten(v)),
        None => None,
    }
    &&& opt_view(f.website) == bound(b, "website"@)
    &&& opt_view(f.wikipedia) == bound(b, "article"@)
}

/// Which rows give a party its facts: the first row whose label slugs to a
/// group being looked up.
pub open spec fn chosen_rows(rows: Seq<Binding>, groups: Seq<(Seq<char>, Seq<char>)>) -> Seq<(Seq<char>, Binding)>
    decreases rows.len(),
{
    if rows.len() == 0 {
        Seq::empty()
    } else {
        let prev = chosen_rows(rows.drop_last(), groups);
        let b = rows.last();
        match bound(b, "label"@) {
            Some(name) => {
                let slug = slugify_spec(name);
                if slug.len() == 0 || entries_get(groups, slug) is None || prev.map_values(
                    |c: (Seq<char>, Binding)| c.0,
                ).contains(slug) {
                    prev
                } else {
                    prev.push((slug, b))
                }
            },
            None => prev,
        }
    }
}

fn facts_from_row(b: &Binding) -> (f: PartyFacts)
    ensures
        facts_of_row(*b, f),
{
    PartyFacts {
        founded: match binding_value(b, "inception") {
            Some(v) => Some(first_ten_exec(v.as_str())),
            None => None,
        },
        website: binding_value(b, "website"),
        wikipedia: binding_value(b, "article"),
    }
}

/// Founding dates, websites and Wikipedia links for the groups, each from
/// the first row naming it, in the order found.
pub fn select_party_facts(bindings: &[Binding], groups: &IndexMap<String, String>) -> (r: Vec<(String, PartyFacts)>)
    ensures
        r@.len() == chosen_rows(bindings@, text_map_entries(*groups)).len(),
        forall|i: int|
            0 <= i < r@.len() ==> {
                let c = chosen_rows(bindings@, text_map_entries(*groups))[i];
                &&& (#[trigger] r@[i]).0@ == c.0
                &&& facts_of_row(c.1, r@[i].1)
            },
{
    let ghost g = text_map_entries(*groups);
    let mut out: Vec<(String, PartyFacts)> = Vec::new();
    let mut slugs: Vec<String> = Vec::new();
    let mut t: usize = 0;
    while t < bindings.len()
        invariant
            t <= bindings@.len(),
            g == text_map_entries(*groups),
            out@.len() == slugs@.len(),
            out@.len() == chosen_rows(bindings@.take(t as int), g).len(),
            crate::text::string_views(slugs@) == chosen_rows(bindings@.take(t as int), g).map_values(
                |c: (Seq<char>, Binding)| c.0,
            ),
            forall|i: int|
                0 <= i < out@.len() ==> {
                    let c = chosen_rows(bindings@.take(t as int), g)[i];
                    &&& (#[trigger] out@[i]).0@ == c.0
                    &&& facts_of_row(c.1, out@[i].1)
                },
        decreases bindings@.len() - t,
    {
        let b = &bindings[t];
        let ghost prev = chosen_rows(bindings@.take(t as int), g);
        proof {
            assert(bindings@.take(t + 1).drop_last() =~= bindings@.take(t as int));
            assert(bindings@.take(t + 1).last() == bindings@[t as int]);
        }
        match binding_value(b, "label") {
            Some(name) => {
                let slug = slugify(name.as_str());
                let fresh = slug.as_str().unicode_len() > 0 && text_map_get(groups, slug.as_str()).is_some()
                    && !contains_text(&slugs, slug.as_str());
                if fresh {
                    let facts = facts_from_row(b);
                    let ghost before_slugs = slugs@;
                    slugs.push(slug.clone());
                    out.push((slug, facts));
                    proof {
                        assert(crate::text::string_views(slugs@) =~= crate::text::string_views(before_slugs).push(
                            out@.last().0@,
                        ));
                        assert(prev.push((out@.last().0@, bindings@[t as int])).map_values(
                            |c: (Seq<char>, Binding)| c.0,
                        ) =~= prev.map_values(|c: (Seq<char>, Binding)| c.0).push(out@.last().0@));
                    }
                }
            },
            None => {},
        }
        t = t + 1;
    }
    proof {
        assert(bindings@.take(bindings@.len() as int) =~= bindings@);
    }
    out
}

// ---------------------------------------------------------------------------
// What a sync stores
// ---------------------------------------------------------------------------

/// Name overrides, by Wikidata id, replace the label Wikidata gives.
pub fn apply_name_overrides(members: &mut Vec<RawMember>, overrides: &IndexMap<String, String>)
    ensures
        final(members)@.len() == old(members)@.len(),
        forall|i: int|
            0 <= i < old(members)@.len() ==> {
                let before = old(members)@[i];
                let after = #[trigger] final(members)@[i];
                &&& after.name@ == match entries_get(text_map_entries(*overrides), before.wikidata@) {
                    Some(n) => n,
                    None => before.name@,
                }
                &&& after.wikidata == before.wikidata
                &&& after.house == before.house
                &&& after.group == before.group
                &&& after.district == before.district
                &&& after.commons_file == before.commons_file
                &&& after.since == before.since
                &&& after.wikipedia == before.wikipedia
            },
{
    let mut i: usize = 0;
    while i < members.len()
        invariant
            i <= members@.len(),
            members@.len() == old(members)@.len(),
            forall|j: int| i <= j < members@.len() ==> members@[j] == old(members)@[j],
            forall|j: int|
                0 <= j < i ==> {
                    let before = old(members)@[j];
                    let after = #[trigger] members@[j];
                    &&& after.name@ == match entries_get(text_map_entries(*overrides), before.wikidata@) {
                        Some(n) => n,
                        None => before.name@,
                    }
                    &&& after.wikidata == before.wikidata
                    &&& after.house == before.house
                    &&& after.group == before.group
                    &&& after.district == before.district
                    &&& after.commons_file == before.commons_file
                    &&& after.since == before.since
                    &&& after.wikipedia == before.wikipedia
                },
        decreases members@.len() - i,
    {
        match text_map_get(overrides, members[i].wikidata.as_str()) {
            Some(name) => {
                let mut m = members.remove(i);
                m.name = name;
                members.insert(i, m);
            },
            None => {},
        }
        i = i + 1;
    }
}

/// The Commons files whose licences are wanted, in member order.
pub fn commons_files(members: &[RawMember]) -> (r: Vec<String>)
    ensures
        crate::text::string_views(r@) == files_of(members@),
{
    let mut out: Vec<String> = Vec::new();
    let mut i: usize = 0;
    while i < members.len()
        invariant
            i <= members@.len(),
            crate::text::string_views(out@) == files_of(members@.take(i as int)),
        decreases members@.len() - i,
    {
        proof {
            assert(members@.take(i + 1).drop_last() =~= members@.take(i as int));
            assert(members@.take(i + 1).last() == members@[i as int]);
        }
        match &members[i].commons_file {
            Some(f) => {
                let ghost before = out@;
                out.push(f.clone());
                proof {
                    assert(crate::text::string_views(out@) =~= crate::text::string_views(before).push(f@));
                }
            },
            None => {},
        }
        i = i + 1;
    }
    proof {
        assert(members@.take(members@.len() as int) =~= members@);
    }
    out
}

pub open spec fn files_of(ms: Seq<RawMember>) -> Seq<Seq<char>>
    decreases ms.len(),
{
    if ms.len() == 0 {
        Seq::empty()
    } else {
        match ms.last().commons_file {
            Some(f) => files_of(ms.drop_last()).push(f@),
            None => files_of(ms.drop_last()),
        }
    }
}

/// Ids kept from the stored record, other sources own them; this source owns
/// only the Wikidata id.
pub fn merge_ids(fresh: &PersonIds, existing: PersonIds) -> (r: PersonIds)
    ensures
        r.wikidata == if fresh.wikidata is Some {
            fresh.wikidata
        } else {
            existing.wikidata
        },
        r.tvfy == existing.tvfy,
        r.aph == existing.aph,
        r.aec_candidate == existing.aec_candidate,
{
    let mut ids = existing;
    match &fresh.wikidata {
        Some(w) => {
            ids.wikidata = Some(w.clone());
        },
        None => {},
    }
    ids
}

/// `canonical/party-facts/{slug}.json`.
pub fn party_facts_key(slug: &str) -> (r: String)
    ensures
        r@ == "canonical/party-facts/"@ + slug@ + ".json"@,
{
    concat3("canonical/party-facts/", slug, ".json")
}

/// `canonical/people/{slug}.json`.
pub fn person_key(slug: &str) -> (r: String)
    ensures
        r@ == "canonical/people/"@ + slug@ + ".json"@,
{
    concat3("canonical/people/", slug, ".json")
}

/// Stored people keys that no current member accounts for: this source
/// owns people entirely, so those are pruned.
pub fn stale_person_keys(people: &[Person], keys: &Vec<String>) -> (r: Vec<String>)
    ensures
        crate::text::string_views(r@) == crate::text::string_views(keys@).filter(
            |k: Seq<char>| !people_keys(people@).contains(k),
        ),
{
    let mut current: Vec<String> = Vec::new();
    let mut i: usize = 0;
    while i < people.len()
        invariant
            i <= people@.len(),
            crate::text::string_views(current@) == people_keys(people@.take(i as int)),
        decreases people@.len() - i,
    {
        proof {
            assert(people@.take(i + 1).drop_last() =~= people@.take(i as int));
            assert(people@.take(i + 1).last() == people@[i as int]);
        }
        let ghost before = current@;
        current.push(person_key(people[i].slug.as_str()));
        proof {
            assert(crate::text::string_views(current@) =~= crate::text::string_views(before).push(
                current@.last()@,
            ));
        }
        i = i + 1;
    }
    proof {
        assert(people@.take(people@.len() as int) =~= people@);
    }
    let ghost ks = crate::text::string_views(keys@);
    let ghost cur = people_keys(people@);
    let mut out: Vec<String> = Vec::new();
    let mut k: usize = 0;
    while k < keys.len()
        invariant
            k <= keys@.len(),
            ks == crate::text::string_views(keys@),
            crate::text::string_views(current@) == cur,
            crate::text::string_views(out@) == ks.take(k as int).filter(|x: Seq<char>| !cur.contains(x)),
        decreases keys@.len() - k,
    {
        proof {
            assert(ks.take(k + 1).drop_last() =~= ks.take(k as int));
            assert(ks.take(k + 1).last() == keys@[k as int]@);
            reveal(Seq::filter);
        }
        if !contains_text(&current, keys[k].as_str()) {
            let ghost before = out@;
            out.push(keys[k].clone());
            proof {
                assert(crate::text::string_views(out@) =~= crate::text::string_views(before).push(keys@[k as int]@));
            }
        }
        k = k + 1;
    }
    proof {
        assert(ks.take(ks.len() as int) =~= ks);
    }
    out
}

pub open spec fn people_keys(people: Seq<Person>) -> Seq<Seq<char>>
    decreases people.len(),
{
    if people.len() == 0 {
        Seq::empty()
    } else {
        people_keys(people.drop_last()).push("canonical/people/"@ + people.last().slug@ + ".json"@)
    }
}

/// The mirrored thumbnail sizes, in pixels.
pub const THUMB_SIZES: [u32; 2] = [96, 320];

/// `derived/img/people/{slug}.src.json`: which Commons file the mirrored
/// thumbnails came from.
pub fn photo_marker_key(slug: &str) -> (r: String)
    ensures
        r@ == "derived/img/people/"@ + slug@ + ".src.json"@,
{
    concat3("derived/img/people/", slug, ".src.json")
}

/// `derived/img/people/{slug}-{size}.jpg`.
pub fn thumb_store_key(slug: &str, size: u32) -> (r: String)
    ensures
        r@ == "derived/img/people/"@ + slug@ + "-"@ + decimal_int(size as int) + ".jpg"@,
{
    let head = concat3("derived/img/people/", slug, "-");
    let n = crate::text::int_text(size as i64);
    concat3(head.as_str(), n.as_str(), ".jpg")
}

/// Thumbnails are fetched again only when the marker names another file.
pub fn needs_mirror(marker: Option<&str>, commons_file: &str) -> (r: bool)
    ensures
        r == (opt_str_view(marker) != Some(commons_file@)),
{
    match marker {
        Some(m) => !str_eq(m, commons_file),
        None => true,
    }
}

/// Point the photo at its mirrored thumbnails.
pub fn set_thumbs(photo: &mut Photo, slug: &str)
    ensures
        opt_view(final(photo).thumb) == Some("/img/people/"@ + slug@ + "-96.jpg"@),
        opt_view(final(photo).thumb_large) == Some("/img/people/"@ + slug@ + "-320.jpg"@),
        final(photo).commons_file == old(photo).commons_file,
        final(photo).url == old(photo).url,
        final(photo).licence == old(photo).licence,
        final(photo).attribution == old(photo).attribution,
{
    photo.thumb = Some(concat3("/img/people/", slug, "-96.jpg"));
    photo.thumb_large = Some(concat3("/img/people/", slug, "-320.jpg"));
}

/// Commons licence lookups go 40 files at a time.
pub const LICENCE_BATCH: usize = 40;

/// `File:a|File:b|...` for a batch of file names.
pub open spec fn file_titles(files: Seq<Seq<char>>) -> Seq<char>
    decreases files.len(),
{
    if files.len() == 0 {
        Seq::empty()
    } else if files.len() == 1 {
        "File:"@ + files[0]
    } else {
        file_titles(files.drop_last()) + "|"@ + "File:"@ + files.last()
    }
}

pub fn licence_titles(batch: &[String]) -> (r: String)
    ensures
        r@ == file_titles(crate::text::string_views(batch@)),
{
    let ghost fs = crate::text::string_views(batch@);
    let mut out: Vec<char> = Vec::new();
    let mut i: usize = 0;
    while i < batch.len()
        invariant
            i <= batch@.len(),
            fs == crate::text::string_views(batch@),
            out@ == file_titles(fs.take(i as int)),
        decreases batch@.len() - i,
    {
        proof {
            assert(fs.take(i + 1).drop_last() =~= fs.take(i as int));
            assert(fs.take(i + 1).last() == batch@[i as int]@);
        }
        let title = concat2("File:", batch[i].as_str());
        let ghost before = out@;
        if i > 0 {
            out.push('|');
        }
        let mut tc = chars_of(title.as_str());
        out.append(&mut tc);
        proof {
            if i == 0 {
                assert(fs.take(1).len() == 1);
                assert(out@ =~= "File:"@ + fs[0]);
            } else {
                reveal_strlit("|");
                assert(out@ =~= before + "|"@ + "File:"@ + fs[i as int]);
            }
        }
        i = i + 1;
    }
    proof {
        assert(fs.take(fs.len() as int) =~= fs);
    }
    string_of(&out)
}

/// The Commons API query for a batch's licences and credits.
pub fn licence_query_url(commons_api: &str, titles: &str) -> (r: String)
    ensures
        r@ == commons_api@
            + "?action=query&prop=imageinfo&iiprop=extmetadata&iiextmetadatafilter=LicenseShortName|Artist&format=json&titles="@
            + uri_component(titles@),
{
    let t = encode_uri_component(titles);
    concat3(
        commons_api,
        "?action=query&prop=imageinfo&iiprop=extmetadata&iiextmetadatafilter=LicenseShortName|Artist&format=json&titles=",
        t.as_str(),
    )
}

/// A page of the licence answer: the file its title names, its licence
/// ("unknown" when not given) and its credit as plain text.
pub fn licence_of_page(title: &str, licence: Option<&str>, artist: Option<&str>) -> (r: (String, CommonsLicence))
    ensures
        r.0@ == if has_prefix(title@, "File:"@) {
            title@.skip(5)
        } else {
            title@
        },
        r.1.licence@ == match opt_str_view(licence) {
            Some(l) => l,
            None => "unknown"@,
        },
        r.1.attribution@ == credit_text(
            match opt_str_view(artist) {
                Some(a) => a,
                None => "Wikimedia Commons"@,
            },
        ),
{
    let file = if crate::text::starts_with(title, "File:") {
        let v = chars_of(title);
        proof {
            reveal_strlit("File:");
        }
        string_of(&crate::text::sub_chars(&v, 5, v.len()))
    } else {
        owned(title)
    };
    let lic = match licence {
        Some(l) => owned(l),
        None => owned("unknown"),
    };
    let credit = match artist {
        Some(a) => strip_html(a),
        None => strip_html("Wikimedia Commons"),
    };
    (file, CommonsLicence { licence: lic, attribution: credit })
}

} // verus!
