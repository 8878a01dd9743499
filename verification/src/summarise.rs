//! The machine-written layers: which divisions, bills and people need a
//! note, how a run spends its request budget, what the model is asked and
//! what of its answer is kept.

use crate::aph::opt_view;
use crate::config::{header_views, FetchOpts};
use crate::schema::{Bill, Division, House, Person, Vote};
use crate::text::{
    chars_of, concat2, concat3, decimal_int, first_index, lemma_first_index, owned,
    split_chars, split_seq, str_eq, string_of, trim_chars, trim_seq, views_of,
};
use crate::tvfy::{key_for, parsed_u32};
use crate::text::{string_views, opt_str_view};
use vstd::prelude::*;

verus! {

pub const DEFAULT_MODEL: &'static str = "gemini-3.1-flash-lite";

pub const DEFAULT_BASE_URL: &'static str = "https://generativelanguage.googleapis.com/v1beta";

/// Divisions and bills go to the model this many at a time.
pub const BATCH_SIZE: usize = 8;

/// Calls per run unless the environment names another number.
pub const DEFAULT_REQUEST_CAP: u32 = 80;

/// Spacing between calls; the free tier counts requests per minute.
pub const DEFAULT_MIN_INTERVAL_MS: u64 = 6500;

/// Bump to regenerate every division summary after a prompt change.
pub const SUMMARY_PROMPT_VERSION: i64 = 3;

/// Bump to regenerate every bill note after a prompt change.
pub const BILL_NOTE_PROMPT_VERSION: i64 = 3;

/// Bump to regenerate every person note after a prompt change.
pub const NOTE_PROMPT_VERSION: i64 = 3;

/// A voting record shorter than this is not described.
pub const MIN_VOTES_FOR_NOTE: usize = 10;

/// After this many failed calls a run stops.
pub const MAX_FAILURES: u32 = 5;

/// Where the model lives and how hard this run may lean on it.
#[derive(Clone, Debug)]
pub struct Gemini {
    pub base_url: String,
    pub api_key: String,
    pub model: String,
    /// Spacing between calls; the free tier counts requests per minute.
    pub min_interval_ms: u64,
    /// Calls per run, so a backfill spans several nights instead of tripping
    /// the daily quota in one.
    pub request_cap: u32,
}

#[derive(Debug, Clone)]
pub struct AiSummary {
    pub text: String,
    pub model: String,
    pub generated_at: String,
    pub prompt_version: Option<i64>,
}

#[derive(Debug, Clone)]
pub struct AiPersonNote {
    pub text: String,
    pub model: String,
    pub generated_at: String,
    pub votes_considered: i64,
    pub prompt_version: Option<i64>,
}

/// Why there is no model to ask, or no usable answer.
#[derive(Debug, Clone, Copy, PartialEq, Eq, Structural)]
pub enum GeminiError {
    MissingKey,
    EmptyResponse,
    MissingNote,
}

impl GeminiError {
    pub fn message(&self) -> (r: &'static str)
        ensures
            r@ == match self {
                GeminiError::MissingKey => "GEMINI_API_KEY not set; skipping AI summaries"@,
                GeminiError::EmptyResponse => "gemini: empty response"@,
                GeminiError::MissingNote => "gemini: missing note field"@,
            },
    {
        match self {
            GeminiError::MissingKey => "GEMINI_API_KEY not set; skipping AI summaries",
            GeminiError::EmptyResponse => "gemini: empty response",
            GeminiError::MissingNote => "gemini: missing note field",
        }
    }
}


/// The request cap: the environment's value when it reads as a `u32`,
/// else the default.
pub fn gemini_request_cap(env_value: Option<&str>) -> (r: u32)
    ensures
        r == match opt_str_view(env_value) {
            Some(t) => match parsed_u32(t) {
                Some(n) => n,
                None => DEFAULT_REQUEST_CAP,
            },
            None => DEFAULT_REQUEST_CAP,
        },
{
    match env_value {
        Some(t) => match crate::tvfy::parse_u32(t) {
            Some(n) => n,
            None => DEFAULT_REQUEST_CAP,
        },
        None => DEFAULT_REQUEST_CAP,
    }
}

impl Gemini {
    /// The model as configured: an API key is required; the model name and
    /// the request cap have defaults.
    pub fn from_values(api_key: Option<String>, model: Option<String>, cap_env: Option<&str>) -> (r: Result<Gemini, GeminiError>)
        ensures
            match r {
                Ok(g) => api_key is Some && g.api_key@ == api_key.unwrap()@ && g.base_url@
                    == DEFAULT_BASE_URL@ && g.model@ == match model {
                    Some(m) => m@,
                    None => DEFAULT_MODEL@,
                } && g.min_interval_ms == DEFAULT_MIN_INTERVAL_MS && g.request_cap == match opt_str_view(cap_env) {
                    Some(t) => match parsed_u32(t) {
                        Some(n) => n,
                        None => DEFAULT_REQUEST_CAP,
                    },
                    None => DEFAULT_REQUEST_CAP,
                },
                Err(e) => api_key is None && e == GeminiError::MissingKey,
            },
    {
        let key = match api_key {
            Some(k) => k,
            None => return Err(GeminiError::MissingKey),
        };
        Ok(Gemini {
            base_url: owned(DEFAULT_BASE_URL),
            api_key: key,
            model: match model {
                Some(m) => m,
                None => owned(DEFAULT_MODEL),
            },
            min_interval_ms: DEFAULT_MIN_INTERVAL_MS,
            request_cap: gemini_request_cap(cap_env),
        })
    }

    /// `{base without trailing slashes}/models/{model}:generateContent`.
    pub fn generate_url(&self) -> (r: String)
        ensures
            r@ == trim_end_char(self.base_url@, '/') + "/models/"@ + self.model@ + ":generateContent"@,
    {
        let v = chars_of(self.base_url.as_str());
        let mut n: usize = v.len();
        assert(v@.take(n as int) =~= v@);
        while n > 0 && v[n - 1] == '/'
            invariant
                n <= v@.len(),
                trim_end_char(v@, '/') == trim_end_char(v@.take(n as int), '/'),
            decreases n,
        {
            proof {
                assert(v@.take(n as int).drop_last() =~= v@.take(n - 1));
            }
            n = n - 1;
        }
        proof {
            assert(v@.take(n as int) =~= v@.subrange(0, n as int));
        }
        let base = string_of(&crate::text::sub_chars(&v, 0, n));
        let head = concat3(base.as_str(), "/models/", self.model.as_str());
        concat2(head.as_str(), ":generateContent")
    }

    /// The request options: the run's spacing and the API key header.
    pub fn request_opts(&self) -> (r: FetchOpts)
        ensures
            r.min_interval_ms == Some(self.min_interval_ms),
            header_views(r.headers@) == seq![("x-goog-api-key"@, self.api_key@)],
            r.accept is None,
            r.post_json is None,
            r.max_attempts is None,
            r.backoff_ms is None,
    {
        let r = FetchOpts::min_interval(self.min_interval_ms).with_header("x-goog-api-key", self.api_key.as_str());
        assert(header_views(r.headers@) =~= seq![("x-goog-api-key"@, self.api_key@)]);
        r
    }
}

/// The text with every trailing `c` removed.
pub open spec fn trim_end_char(s: Seq<char>, c: char) -> Seq<char>
    decreases s.len(),
{
    if s.len() > 0 && s.last() == c {
        trim_end_char(s.drop_last(), c)
    } else {
        s
    }
}

/// The model's text is the answer unless it is missing or empty.
pub fn accept_generated(text: Option<String>) -> (r: Result<String, GeminiError>)
    ensures
        match r {
            Ok(t) => text is Some && t == text.unwrap() && t@.len() > 0,
            Err(e) => e == GeminiError::EmptyResponse && (text is None || text.unwrap()@.len() == 0),
        },
{
    match text {
        Some(t) => if t.as_str().unicode_len() > 0 {
            Ok(t)
        } else {
            Err(GeminiError::EmptyResponse)
        },
        None => Err(GeminiError::EmptyResponse),
    }
}

/// A person note is the answer's `note` field, trimmed, unless missing or empty.
pub fn accept_note(note: Option<&str>) -> (r: Result<String, GeminiError>)
    ensures
        match r {
            Ok(t) => note is Some && t@ == trim_seq(note.unwrap()@) && t@.len() > 0,
            Err(e) => e == GeminiError::MissingNote && (note is None || trim_seq(note.unwrap()@).len() == 0),
        },
{
    match note {
        Some(n) => {
            let t = crate::text::trim(n);
            if t.as_str().unicode_len() > 0 {
                Ok(t)
            } else {
                Err(GeminiError::MissingNote)
            }
        },
        None => Err(GeminiError::MissingNote),
    }
}

// ---------------------------------------------------------------------------
// Keys and transcripts
// ---------------------------------------------------------------------------

/// `derived/ai-summaries/{flattened division id}.json`.
pub fn ai_key(division_id: &str) -> (r: String)
    ensures
        r@ == "derived/ai-summaries/"@ + crate::text::replace_char_seq(division_id@, '/', '-')
            + ".json"@,
{
    let k = key_for(division_id);
    concat3("derived/ai-summaries/", k.as_str(), ".json")
}

/// `derived/ai-person-notes/{slug}.json`.
pub fn note_key(slug: &str) -> (r: String)
    ensures
        r@ == "derived/ai-person-notes/"@ + slug@ + ".json"@,
{
    concat3("derived/ai-person-notes/", slug, ".json")
}

/// `derived/ai-bill-notes/{id}.json`.
pub fn bill_note_key(id: &str) -> (r: String)
    ensures
        r@ == "derived/ai-bill-notes/"@ + id@ + ".json"@,
{
    concat3("derived/ai-bill-notes/", id, ".json")
}


/// A transcript quotes speakers: some line of it, trimmed, is exactly a
/// sitting member's name.
pub open spec fn transcript_like(summary: Seq<char>, names: Seq<Seq<char>>) -> bool {
    exists|i: int|
        0 <= i < split_seq(summary, '\n').len() && names.contains(
            trim_seq(#[trigger] split_seq(summary, '\n')[i]),
        )
}

/// TVFY's context field is a written summary for most bill votes but a raw
/// Hansard excerpt for procedural motions; a paragraph consisting solely of
/// a sitting member's name marks the excerpt.
pub fn is_transcript(summary: &str, member_names: &Vec<String>) -> (r: bool)
    ensures
        r == transcript_like(summary@, string_views(member_names@)),
{
    let v = chars_of(summary);
    let lines = split_chars(&v, '\n');
    let ghost ls = split_seq(summary@, '\n');
    let ghost names = string_views(member_names@);
    let mut i: usize = 0;
    while i < lines.len()
        invariant
            i <= lines@.len(),
            views_of(lines@) == ls,
            ls == split_seq(summary@, '\n'),
            names == string_views(member_names@),
            forall|k: int| 0 <= k < i ==> !names.contains(trim_seq(#[trigger] ls[k])),
        decreases lines@.len() - i,
    {
        let t = trim_chars(&lines[i]);
        let line = string_of(&t);
        proof {
            assert(ls[i as int] == lines@[i as int]@);
            assert(line@ == trim_seq(ls[i as int]));
        }
        let mut j: usize = 0;
        while j < member_names.len()
            invariant
                j <= member_names@.len(),
                names == string_views(member_names@),
                i < ls.len(),
                ls == split_seq(summary@, '\n'),
                line@ == trim_seq(ls[i as int]),
                forall|m: int| 0 <= m < j ==> member_names@[m]@ != line@,
            decreases member_names@.len() - j,
        {
            if str_eq(member_names[j].as_str(), line.as_str()) {
                proof {
                    assert(names[j as int] == line@);
                    assert(names.contains(line@));
                    assert(line@ == trim_seq(ls[i as int]));
                    assert(names.contains(trim_seq(split_seq(summary@, '\n')[i as int])));
                }
                return true;
            }
            j = j + 1;
        }
        proof {
            if names.contains(line@) {
                let m = choose|m: int| 0 <= m < names.len() && names[m] == line@;
                assert(member_names@[m]@ == line@);
            }
        }
        i = i + 1;
    }
    false
}

// ---------------------------------------------------------------------------
// String.prototype.slice
// ---------------------------------------------------------------------------

/// How many UTF-16 code units a character takes.
pub open spec fn utf16_units(c: char) -> int {
    if c as int >= 0x10000 {
        2
    } else {
        1
    }
}

/// The first `n` UTF-16 code units of `s`, read back lossily: a surrogate
/// pair cut in half becomes U+FFFD.
pub open spec fn utf16_take(s: Seq<char>, n: int) -> Seq<char>
    decreases s.len(),
{
    if s.len() == 0 || n <= 0 {
        Seq::empty()
    } else if utf16_units(s[0]) <= n {
        seq![s[0]] + utf16_take(s.drop_first(), n - utf16_units(s[0]))
    } else {
        seq!['\u{fffd}']
    }
}

proof fn lemma_utf16_take_step(s: Seq<char>, i: int, n: int)
    requires
        0 <= i < s.len(),
        n > 0,
    ensures
        utf16_take(s.skip(i), n) == if utf16_units(s[i]) <= n {
            seq![s[i]] + utf16_take(s.skip(i + 1), n - utf16_units(s[i]))
        } else {
            seq!['\u{fffd}']
        },
{
    assert(s.skip(i).drop_first() =~= s.skip(i + 1));
    assert(s.skip(i)[0] == s[i]);
}

/// How many UTF-16 code units `s` takes.
pub open spec fn utf16_len(s: Seq<char>) -> int
    decreases s.len(),
{
    if s.len() == 0 {
        0
    } else {
        utf16_units(s[0]) + utf16_len(s.drop_first())
    }
}

/// A cut never takes more code units than it was given, and a text that
/// already fits comes back whole.
pub proof fn law_utf16_slice_fits(s: Seq<char>, n: int)
    requires
        n >= 0,
    ensures
        utf16_len(utf16_take(s, n)) <= n,
        utf16_len(s) <= n ==> utf16_take(s, n) == s,
    decreases s.len(),
{
    if s.len() > 0 && n > 0 {
        let t = s.drop_first();
        lemma_utf16_len_nonneg(t);
        if utf16_units(s[0]) <= n {
            law_utf16_slice_fits(t, n - utf16_units(s[0]));
            let r = seq![s[0]] + utf16_take(t, n - utf16_units(s[0]));
            assert(utf16_take(s, n) == r);
            assert(r.drop_first() =~= utf16_take(t, n - utf16_units(s[0])));
            assert(r[0] == s[0]);
            assert(utf16_len(r) == utf16_units(s[0]) + utf16_len(utf16_take(t, n - utf16_units(s[0]))));
            if utf16_len(s) <= n {
                assert(r =~= s);
            }
        } else {
            let r = seq!['\u{fffd}'];
            assert(utf16_take(s, n) == r);
            assert(r.drop_first() =~= Seq::<char>::empty());
            assert(utf16_len(Seq::<char>::empty()) == 0);
            assert(utf16_units('\u{fffd}') == 1);
            assert(utf16_len(r) == 1);
        }
    } else if s.len() > 0 {
        lemma_utf16_len_nonneg(s.drop_first());
    }
}

proof fn lemma_utf16_len_nonneg(s: Seq<char>)
    ensures
        utf16_len(s) >= 0,
    decreases s.len(),
{
    if s.len() > 0 {
        lemma_utf16_len_nonneg(s.drop_first());
    }
}

fn units_of(c: char) -> (r: usize)
    ensures
        r as int == utf16_units(c),
{
    let n: u32 = c as u32;
    proof {
        assert(n as int == c as int);
    }
    if n >= 0x10000 {
        2
    } else {
        1
    }
}

/// `input` cut to at most `max_units` UTF-16 code units, as JavaScript's
/// `slice` counts them; never splits a character into invalid text.
pub fn utf16_slice(input: &str, max_units: usize) -> (r: String)
    ensures
        r@ == utf16_take(input@, max_units as int),
{
    let v = chars_of(input);
    let mut out: Vec<char> = Vec::new();
    let mut left: usize = max_units;
    let mut i: usize = 0;
    proof {
        assert(v@.skip(0) =~= v@);
    }
    while i < v.len() && left > 0
        invariant
            i <= v@.len(),
            utf16_take(v@, max_units as int) == out@ + utf16_take(v@.skip(i as int), left as int),
        decreases v@.len() - i,
    {
        let c = v[i];
        let need = units_of(c);
        proof {
            lemma_utf16_take_step(v@, i as int, left as int);
            assert(need as int == utf16_units(c));
        }
        if need <= left {
            let ghost before = out@;
            out.push(c);
            proof {
                assert(before + (seq![c] + utf16_take(v@.skip(i + 1), (left - need) as int)) =~= out@
                    + utf16_take(v@.skip(i + 1), (left - need) as int));
            }
            left = left - need;
            i = i + 1;
        } else {
            out.push('\u{fffd}');
            proof {
                assert(v@.skip(v@.len() as int) =~= Seq::<char>::empty());
            }
            i = v.len();
            left = 0;
        }
    }
    proof {
        assert(utf16_take(v@.skip(i as int), left as int) =~= Seq::<char>::empty());
        assert(out@ + Seq::<char>::empty() =~= out@);
    }
    string_of(&out)
}


// ---------------------------------------------------------------------------
// What is pending
// ---------------------------------------------------------------------------

/// A stored note is stale unless it was written with the current prompt.
pub open spec fn stale(existing: Option<Option<i64>>, version: i64) -> bool {
    existing != Some(Some(version))
}

pub open spec fn stored_version(existing: Option<AiSummary>) -> Option<Option<i64>> {
    match existing {
        Some(e) => Some(e.prompt_version),
        None => None,
    }
}

pub open spec fn deref_opt<T>(o: Option<&T>) -> Option<T> {
    match o {
        Some(x) => Some(*x),
        None => None,
    }
}

fn version_of(existing: Option<&AiSummary>) -> (r: Option<Option<i64>>)
    ensures
        r == stored_version(deref_opt(existing)),
{
    match existing {
        Some(e) => Some(e.prompt_version),
        None => None,
    }
}

fn is_stale(v: Option<Option<i64>>, version: i64) -> (r: bool)
    ensures
        r == stale(v, version),
{
    match v {
        Some(Some(x)) => x != version,
        _ => true,
    }
}

/// A division needs a summary when its only context is a transcript and
/// no summary was written with the current prompt.
pub fn division_pending(d: &Division, member_names: &Vec<String>, existing: Option<&AiSummary>) -> (r: bool)
    ensures
        r == match d.summary {
            Some(s) => transcript_like(s@, string_views(member_names@)) && stale(
                stored_version(deref_opt(existing)),
                SUMMARY_PROMPT_VERSION,
            ),
            None => false,
        },
{
    match &d.summary {
        Some(s) => is_transcript(s.as_str(), member_names) && is_stale(
            version_of(existing),
            SUMMARY_PROMPT_VERSION,
        ),
        None => false,
    }
}

/// A bill needs a note unless one was written with the current prompt (an
/// empty note included: it records that the summary is plain enough).
pub fn bill_note_pending(existing: Option<&AiSummary>) -> (r: bool)
    ensures
        r == stale(stored_version(deref_opt(existing)), BILL_NOTE_PROMPT_VERSION),
{
    is_stale(version_of(existing), BILL_NOTE_PROMPT_VERSION)
}

/// A person with at least ten votes gets a note, regenerated when the
/// number of votes moved or the prompt changed (a new model alone is no
/// reason).
pub fn person_note_due(vote_count: usize, existing: Option<&AiPersonNote>) -> (r: bool)
    ensures
        r == (vote_count >= MIN_VOTES_FOR_NOTE && match existing {
            Some(e) => !(e.votes_considered as int == vote_count as int && e.prompt_version == Some(
                NOTE_PROMPT_VERSION,
            )),
            None => true,
        }),
{
    if vote_count < MIN_VOTES_FOR_NOTE {
        return false;
    }
    match existing {
        Some(e) => {
            let same_count = (e.votes_considered as i128) == (vote_count as i128);
            let same_prompt = match e.prompt_version {
                Some(v) => v == NOTE_PROMPT_VERSION,
                None => false,
            };
            !(same_count && same_prompt)
        },
        None => true,
    }
}

// ---------------------------------------------------------------------------
// A run's budget
// ---------------------------------------------------------------------------

/// What a run has spent: requests against the cap, and failures.
#[derive(Debug, Clone, Copy, PartialEq, Eq, Structural)]
pub struct RunBudget {
    pub cap: u32,
    pub requests: u32,
    pub failed: u32,
}

impl RunBudget {
    /// The budget once one more request is counted.
    pub open spec fn after_request(self) -> RunBudget {
        RunBudget { requests: (self.requests + 1) as u32, ..self }
    }

    /// The budget once one more failure is counted.
    pub open spec fn after_failure(self) -> RunBudget {
        RunBudget { failed: (self.failed + 1) as u32, ..self }
    }

    pub fn new(cap: u32) -> (r: Self)
        ensures
            r.cap == cap,
            r.requests == 0,
            r.failed == 0,
    {
        RunBudget { cap, requests: 0, failed: 0 }
    }

    /// Count a request; `false` once the cap is passed, which ends the run
    /// with the rest left pending.
    pub fn take_request(&mut self) -> (r: bool)
        requires
            old(self).requests < u32::MAX,
        ensures
            final(self).requests == old(self).requests + 1,
            final(self).cap == old(self).cap,
            final(self).failed == old(self).failed,
            r == (final(self).requests <= final(self).cap),
            *final(self) == old(self).after_request(),
    {
        self.requests = self.requests + 1;
        self.requests <= self.cap
    }

    /// Count a failed call; `true` once there have been five, which aborts
    /// the run.
    pub fn record_failure(&mut self) -> (abort: bool)
        requires
            old(self).failed < u32::MAX,
        ensures
            final(self).failed == old(self).failed + 1,
            final(self).cap == old(self).cap,
            final(self).requests == old(self).requests,
            abort == (final(self).failed >= MAX_FAILURES),
            *final(self) == old(self).after_failure(),
    {
        self.failed = self.failed + 1;
        self.failed >= MAX_FAILURES
    }
}

/// However the calls interleave, a run never makes a request past its cap:
/// a request is only made when `take_request` said yes, and then the count
/// is within the cap.
pub proof fn law_cap_is_a_hard_stop(before: RunBudget, after: RunBudget, allowed: bool)
    requires
        after.requests == before.requests + 1,
        after.cap == before.cap,
        allowed == (after.requests <= after.cap),
    ensures
        allowed ==> after.requests <= before.cap,
        !allowed ==> before.requests >= before.cap,
{
}

/// A run over batches whose calls succeed or fail as `outcomes` says, from
/// batch `i` on with budget `b`: how many calls it makes, and whether it
/// aborts. Each batch first takes a request (the run ends, nothing aborted,
/// once the cap is passed); a failed call is counted, and the fifth aborts.
pub open spec fn budget_run(b: RunBudget, outcomes: Seq<bool>, i: nat) -> (nat, bool)
    decreases outcomes.len() - i,
{
    if i >= outcomes.len() {
        (i, false)
    } else if b.after_request().requests > b.cap {
        (i, false)
    } else if outcomes[i as int] {
        budget_run(b.after_request(), outcomes, i + 1)
    } else if b.after_request().after_failure().failed >= MAX_FAILURES {
        (i + 1, true)
    } else {
        budget_run(b.after_request().after_failure(), outcomes, i + 1)
    }
}

proof fn lemma_budget_run(b: RunBudget, outcomes: Seq<bool>, i: nat)
    requires
        i <= outcomes.len() < u32::MAX,
        b.requests == i,
        i <= b.cap,
        b.failed == crate::run::failed_count(outcomes.take(i as int)),
        b.failed < MAX_FAILURES,
    ensures
        i <= budget_run(b, outcomes, i).0 <= outcomes.len(),
        budget_run(b, outcomes, i).0 <= b.cap,
        budget_run(b, outcomes, i).1 <==> crate::run::failed_count(
            outcomes.take(budget_run(b, outcomes, i).0 as int),
        ) >= MAX_FAILURES,
        budget_run(b, outcomes, i).1 ==> !outcomes[budget_run(b, outcomes, i).0 - 1],
        !budget_run(b, outcomes, i).1 ==> budget_run(b, outcomes, i).0 == (if b.cap < outcomes.len() {
            b.cap as int
        } else {
            outcomes.len() as int
        }),
    decreases outcomes.len() - i,
{
    if i < outcomes.len() && b.after_request().requests <= b.cap {
        let next = outcomes.take((i + 1) as int);
        assert(next.drop_last() =~= outcomes.take(i as int));
        assert(next.last() == outcomes[i as int]);
        if outcomes[i as int] {
            lemma_budget_run(b.after_request(), outcomes, i + 1);
        } else if b.after_request().after_failure().failed < MAX_FAILURES {
            lemma_budget_run(b.after_request().after_failure(), outcomes, i + 1);
        }
    }
}

/// However the calls go, a run over `n` batches with cap `cap` makes at
/// most `min(cap, n)` generate calls; it aborts exactly when a fifth call
/// fails, on that call; otherwise it makes all `min(cap, n)` calls with
/// fewer than five failures.
pub proof fn law_batch_run(cap: u32, outcomes: Seq<bool>)
    requires
        outcomes.len() < u32::MAX,
    ensures
        budget_run(RunBudget { cap, requests: 0, failed: 0 }, outcomes, 0).0 <= cap,
        budget_run(RunBudget { cap, requests: 0, failed: 0 }, outcomes, 0).0 <= outcomes.len(),
        budget_run(RunBudget { cap, requests: 0, failed: 0 }, outcomes, 0).1 <==> crate::run::failed_count(
            outcomes.take(budget_run(RunBudget { cap, requests: 0, failed: 0 }, outcomes, 0).0 as int),
        ) >= MAX_FAILURES,
        budget_run(RunBudget { cap, requests: 0, failed: 0 }, outcomes, 0).1 ==> !outcomes[budget_run(
            RunBudget { cap, requests: 0, failed: 0 },
            outcomes,
            0,
        ).0 - 1],
        !budget_run(RunBudget { cap, requests: 0, failed: 0 }, outcomes, 0).1 ==> budget_run(
            RunBudget { cap, requests: 0, failed: 0 },
            outcomes,
            0,
        ).0 == (if cap < outcomes.len() {
            cap as int
        } else {
            outcomes.len() as int
        }),
{
    let b = RunBudget { cap, requests: 0, failed: 0 };
    assert(outcomes.take(0) =~= Seq::<bool>::empty());
    lemma_budget_run(b, outcomes, 0);
}

/// The batches of `n` items, `size` at a time: `[start, end)` ranges in order.
pub open spec fn batch_range(n: nat, size: nat, i: int) -> (int, int) {
    let start = i * size;
    let end = if (i + 1) * size <= n {
        (i + 1) * size
    } else {
        n as int
    };
    (start, end)
}

pub fn batches(n: usize) -> (r: Vec<(usize, usize)>)
    ensures
        r@.len() == (n + BATCH_SIZE - 1) / (BATCH_SIZE as int),
        forall|i: int|
            0 <= i < r@.len() ==> (#[trigger] r@[i]).0 as int == batch_range(n as nat, BATCH_SIZE as nat, i).0
                && r@[i].1 as int == batch_range(n as nat, BATCH_SIZE as nat, i).1,
{
    let count: usize = n / 8 + if n % 8 > 0 {
        1
    } else {
        0
    };
    assert(count as int == (n + 7) / 8) by (nonlinear_arith)
        requires
            count == n / 8 + if n % 8 > 0 {
                1int
            } else {
                0int
            },
    ;
    let mut out: Vec<(usize, usize)> = Vec::new();
    let mut k: usize = 0;
    while k < count
        invariant
            k <= count,
            count as int == (n + 7) / 8,
            out@.len() == k,
            forall|i: int|
                0 <= i < out@.len() ==> (#[trigger] out@[i]).0 as int == batch_range(n as nat, 8, i).0
                    && out@[i].1 as int == batch_range(n as nat, 8, i).1,
        decreases count - k,
    {
        assert(k * 8 < n) by (nonlinear_arith)
            requires
                k < count,
                count as int == (n + 7) / 8,
        ;
        let start = k * 8;
        let end = if n - start >= 8 {
            start + 8
        } else {
            n
        };
        assert(end as int == batch_range(n as nat, 8, k as int).1) by (nonlinear_arith)
            requires
                start == k * 8,
                end == if n - start >= 8 {
                    start + 8
                } else {
                    n as int
                },
        ;
        out.push((start, end));
        k = k + 1;
    }
    out
}


// ---------------------------------------------------------------------------
// What is kept of an answer
// ---------------------------------------------------------------------------


/// The answer rows kept: those naming an id of the batch, with their summary
/// trimmed; with `require_text`, rows with an empty summary are dropped.
pub open spec fn kept_answers(
    ids: Seq<Seq<char>>,
    rows: Seq<(Option<String>, Option<String>)>,
    require_text: bool,
) -> Seq<(Seq<char>, Seq<char>)>
    decreases rows.len(),
{
    if rows.len() == 0 {
        Seq::empty()
    } else {
        let prev = kept_answers(ids, rows.drop_last(), require_text);
        let row = rows.last();
        match (row.0, row.1) {
            (Some(id), Some(summary)) => if (!require_text || summary@.len() > 0) && ids.contains(id@) {
                crate::collections::entries_insert(prev, id@, trim_seq(summary@))
            } else {
                prev
            },
            _ => prev,
        }
    }
}

fn contains_id(ids: &Vec<String>, id: &str) -> (r: bool)
    ensures
        r == string_views(ids@).contains(id@),
{
    let mut i: usize = 0;
    while i < ids.len()
        invariant
            i <= ids@.len(),
            forall|k: int| 0 <= k < i ==> ids@[k]@ != id@,
        decreases ids@.len() - i,
    {
        if str_eq(ids[i].as_str(), id) {
            proof {
                assert(string_views(ids@)[i as int] == id@);
            }
            return true;
        }
        i = i + 1;
    }
    proof {
        if string_views(ids@).contains(id@) {
            let k = choose|k: int| 0 <= k < string_views(ids@).len() && string_views(ids@)[k] == id@;
            assert(ids@[k]@ == id@);
        }
    }
    false
}

fn keep_answers(ids: &Vec<String>, rows: &Vec<(Option<String>, Option<String>)>, require_text: bool) -> (r: indexmap::IndexMap<String, String>)
    ensures
        crate::collections::text_map_entries(r) == kept_answers(string_views(ids@), rows@, require_text),
{
    let mut out = crate::collections::text_map_new();
    let mut i: usize = 0;
    while i < rows.len()
        invariant
            i <= rows@.len(),
            crate::collections::text_map_entries(out) == kept_answers(string_views(ids@), rows@.take(i as int), require_text),
        decreases rows@.len() - i,
    {
        proof {
            assert(rows@.take(i + 1).drop_last() =~= rows@.take(i as int));
            assert(rows@.take(i + 1).last() == rows@[i as int]);
        }
        match (&rows[i].0, &rows[i].1) {
            (Some(id), Some(summary)) => {
                if (!require_text || summary.as_str().unicode_len() > 0) && contains_id(ids, id.as_str()) {
                    let t = crate::text::trim(summary.as_str());
                    crate::collections::text_map_insert(&mut out, id.clone(), t);
                }
            },
            _ => {},
        }
        i = i + 1;
    }
    proof {
        assert(rows@.take(rows@.len() as int) =~= rows@);
    }
    out
}

/// The model's division summaries kept from its answer: only for divisions
/// of the batch, only when not empty, trimmed.
pub fn division_answers(batch_ids: &Vec<String>, rows: &Vec<(Option<String>, Option<String>)>) -> (r: indexmap::IndexMap<String, String>)
    ensures
        crate::collections::text_map_entries(r) == kept_answers(string_views(batch_ids@), rows@, true),
{
    keep_answers(batch_ids, rows, true)
}

/// A division's kept answer, when there is one that is not empty after
/// trimming: only such an answer is stored as its summary.
pub fn stored_answer(results: &indexmap::IndexMap<String, String>, id: &str) -> (r: Option<String>)
    ensures
        match crate::collections::entries_get(crate::collections::text_map_entries(*results), id@) {
            Some(t) => if t.len() > 0 {
                r matches Some(x) && x@ == t
            } else {
                r is None
            },
            None => r is None,
        },
{
    match crate::collections::text_map_get(results, id) {
        Some(t) => if t.as_str().unicode_len() > 0 {
            Some(t)
        } else {
            None
        },
        None => None,
    }
}

/// The model's bill notes kept from its answer: only for bills of the
/// batch, trimmed; an empty note is kept, it records a judgement.
pub fn bill_answers(batch_ids: &Vec<String>, rows: &Vec<(Option<String>, Option<String>)>) -> (r: indexmap::IndexMap<String, String>)
    ensures
        crate::collections::text_map_entries(r) == kept_answers(string_views(batch_ids@), rows@, false),
{
    keep_answers(batch_ids, rows, false)
}

// ---------------------------------------------------------------------------
// What the model is asked
// ---------------------------------------------------------------------------

pub const BILL_PROMPT_HEAD: &'static str = "You explain bills before the Australian federal parliament to ordinary readers.\nFor EACH bill below, decide whether an explanation adds anything, then write accordingly:\n- Return an EMPTY string ONLY when the official summary is short AND every term in it would be understood by an ordinary reader with no knowledge of parliament or law. A note that merely rephrases such a summary is worse than none.\n- If the summary is short but contains ANY technical, legal or institutional language \u{2014} terms like \"Consolidated Revenue Fund\", \"standing appropriations\", \"delegated legislation\", \"consequential amendments\", or the mechanics of a named act \u{2014} write ONE sentence that translates the jargon and mechanism into plain terms. Do not restate what is already plain. When unsure, write the sentence.\n- If the summary is long or dense, write two to three sentences of plain-English context: what this KIND of bill does in the Australian system where that helps (for example, appropriation bills are the routine budget bills that authorise the government to spend money on its ordinary operations) \u{2014} general knowledge of parliamentary practice is allowed for the mechanism \u{2014} and what THIS bill specifically changes, using ONLY the official summary provided; never invent specifics. If the summary is missing, say only what the title supports.\nNever evaluate the bill or any politician; no opinions; do not restate the bill's status. Plain Australian English.\nReturn JSON: an array of {\"id\": \"<bill id>\", \"summary\": \"<text or empty string>\"} covering every bill.\n\n";

pub const DIVISION_PROMPT_HEAD: &'static str = "You write neutral context notes for recorded votes (divisions) in the Australian federal parliament.\nFor EACH division below, write one to two sentences of CONTEXT: what the bill, amendment or motion is about in substance, and what question was actually being decided (for example, a second reading decides whether to agree with a bill in principle; a rearrangement motion changes the order of business).\nFor procedural motions (rearrangement, suspension of standing orders, closure, adjournment), use the same-day division list to say what business the motion concerned when it is evident, for example which bill was brought on for debate or voted on soon after. Copy bill titles exactly as given.\nThe page already shows the result and the vote counts, so NEVER say whether it passed or failed, never mention the numbers, and do not describe the outcome at all.\nRules: use ONLY the provided material; no opinions, no speculation about motives; plain Australian English; do not evaluate any politician or law.\nReturn JSON: an array of {\"id\": \"<division id>\", \"summary\": \"<text>\"} covering every division.\n\n";

pub const NOTE_PROMPT_0: &'static str = "You describe voting records in the Australian federal parliament, strictly descriptively.\n\nData for ";

pub const NOTE_PROMPT_1: &'static str = " (";

pub const NOTE_PROMPT_2: &'static str = "), ";

pub const NOTE_PROMPT_3: &'static str = ":\n- Voted in ";

pub const NOTE_PROMPT_4: &'static str = " of ";

pub const NOTE_PROMPT_5: &'static str = " recorded divisions; ";

pub const NOTE_PROMPT_6: &'static str = " vote";

pub const NOTE_PROMPT_7: &'static str = " against their party grouping's majority (\"crossed\" below).\n- Every recorded vote (date | division | their vote):\n";

pub const NOTE_PROMPT_8: &'static str = "\n\nThe page already displays the two counts above, so NEVER restate them, never say they always voted with their party, and never say they did not cross. Write two to three sentences that add what a reader cannot see by scanning a long table:\n- the subject areas that recur among the divisions they voted in, and WHICH WAY they voted on each of those subjects (aye or no);\n- if they ever crossed, name the specific division(s) and how they voted;\n- any other specific, countable pattern in the titles and votes (for example, several related bills all voted the same way).\n\nDescribe motions by their formal type (second reading, consideration in detail amendment, suspension of standing orders, censure motion, order for the production of documents) and subject. NEVER characterise a motion by political direction or origin: \"critical of the government\", \"opposition-led\" and \"government-supported\" are banned, because every member of a governing party opposes censure motions and every opposition member supports them, so such phrases carry no information. Copy bill titles EXACTLY as they appear in the data, letter for letter.\n\nStrictly descriptive: never praise or criticise; no evaluative adjectives (loyal, rebellious, strong, poor, impressive); no motives, ideology or character; nothing not present in the data. Australian English spelling (favour, criticise, labour). Return JSON {\"note\": \"...\"}";


/// The pieces joined by `sep`.
pub open spec fn join_spec(parts: Seq<Seq<char>>, sep: Seq<char>) -> Seq<char>
    decreases parts.len(),
{
    if parts.len() == 0 {
        Seq::empty()
    } else if parts.len() == 1 {
        parts[0]
    } else {
        join_spec(parts.drop_last(), sep) + sep + parts.last()
    }
}

pub fn join_with(parts: &Vec<String>, sep: &str) -> (r: String)
    ensures
        r@ == join_spec(string_views(parts@), sep@),
{
    let ghost ps = string_views(parts@);
    let mut out: Vec<char> = Vec::new();
    let mut i: usize = 0;
    while i < parts.len()
        invariant
            i <= parts@.len(),
            ps == string_views(parts@),
            out@ == join_spec(ps.take(i as int), sep@),
        decreases parts@.len() - i,
    {
        proof {
            assert(ps.take(i + 1).drop_last() =~= ps.take(i as int));
            assert(ps.take(i + 1).last() == parts@[i as int]@);
        }
        let ghost before = out@;
        if i > 0 {
            let mut sc = chars_of(sep);
            out.append(&mut sc);
        }
        let mut pc = chars_of(parts[i].as_str());
        out.append(&mut pc);
        proof {
            if i == 0 {
                assert(ps.take(1).len() == 1);
                assert(out@ =~= ps[0]);
            } else {
                assert(out@ =~= before + sep@ + ps[i as int]);
            }
        }
        i = i + 1;
    }
    proof {
        assert(ps.take(ps.len() as int) =~= ps);
    }
    string_of(&out)
}

pub open spec fn summary_or(o: Option<String>, fallback: Seq<char>) -> Seq<char> {
    match o {
        Some(s) => s@,
        None => fallback,
    }
}

/// One bill as the model sees it.
pub open spec fn bill_item(b: Bill) -> Seq<char> {
    "<bill id=\""@ + b.id@ + "\">\nTitle: "@ + b.title@ + "\nOfficial summary: "@ + summary_or(
        b.summary,
        "none provided"@,
    ) + "\n</bill>"@
}

pub open spec fn bill_items(bs: Seq<Bill>) -> Seq<Seq<char>> {
    bs.map_values(|b: Bill| bill_item(b))
}

fn text_or(o: &Option<String>, fallback: &str) -> (r: String)
    ensures
        r@ == summary_or(*o, fallback@),
{
    match o {
        Some(s) => s.clone(),
        None => owned(fallback),
    }
}

/// The prompt for a batch of bills.
pub fn bill_prompt(batch: &[Bill]) -> (r: String)
    ensures
        r@ == BILL_PROMPT_HEAD@ + join_spec(bill_items(batch@), "\n\n"@),
{
    let mut items: Vec<String> = Vec::new();
    let mut i: usize = 0;
    while i < batch.len()
        invariant
            i <= batch@.len(),
            string_views(items@) == bill_items(batch@.take(i as int)),
        decreases batch@.len() - i,
    {
        let b = &batch[i];
        let summary = text_or(&b.summary, "none provided");
        let a = concat3("<bill id=\"", b.id.as_str(), "\">\nTitle: ");
        let c = concat3(a.as_str(), b.title.as_str(), "\nOfficial summary: ");
        let item = concat3(c.as_str(), summary.as_str(), "\n</bill>");
        let ghost before = items@;
        items.push(item);
        proof {
            assert(batch@.take(i + 1) =~= batch@.take(i as int).push(batch@[i as int]));
            assert(string_views(items@) =~= string_views(before).push(bill_item(batch@[i as int])));
            assert(bill_items(batch@.take(i + 1)) =~= bill_items(batch@.take(i as int)).push(bill_item(batch@[i as int])));
        }
        i = i + 1;
    }
    proof {
        assert(batch@.take(batch@.len() as int) =~= batch@);
    }
    let joined = join_with(&items, "\n\n");
    concat2(BILL_PROMPT_HEAD, joined.as_str())
}


/// What a map from bill ids to bills holds, in insertion order.
pub uninterp spec fn bill_entries(m: indexmap::IndexMap<String, Bill>) -> Seq<(Seq<char>, Bill)>;

/// `IndexMap::get`.
#[verifier::external_body]
pub(crate) fn bill_map_get<'a>(m: &'a indexmap::IndexMap<String, Bill>, id: &str) -> (r: Option<&'a Bill>)
    ensures
        deref_opt(r) == crate::collections::entries_get(bill_entries(*m), id@),
{
    m.get(id)
}

/// The bills a division cites that are known, each as a line with its
/// official summary.
pub open spec fn related_lines(ids: Seq<String>, e: Seq<(Seq<char>, Bill)>) -> Seq<Seq<char>>
    decreases ids.len(),
{
    if ids.len() == 0 {
        Seq::empty()
    } else {
        let prev = related_lines(ids.drop_last(), e);
        match crate::collections::entries_get(e, ids.last()@) {
            Some(b) => prev.push(
                "- "@ + b.title@ + ": "@ + summary_or(b.summary, "no official summary"@),
            ),
            None => prev,
        }
    }
}

fn related_of(d: &Division, bills: &indexmap::IndexMap<String, Bill>) -> (r: Vec<String>)
    ensures
        string_views(r@) == related_lines(d.bill_ids@, bill_entries(*bills)),
{
    let mut out: Vec<String> = Vec::new();
    let mut i: usize = 0;
    while i < d.bill_ids.len()
        invariant
            i <= d.bill_ids@.len(),
            string_views(out@) == related_lines(d.bill_ids@.take(i as int), bill_entries(*bills)),
        decreases d.bill_ids@.len() - i,
    {
        proof {
            assert(d.bill_ids@.take(i + 1).drop_last() =~= d.bill_ids@.take(i as int));
            assert(d.bill_ids@.take(i + 1).last() == d.bill_ids@[i as int]);
        }
        match bill_map_get(bills, d.bill_ids[i].as_str()) {
            Some(b) => {
                let summary = text_or(&b.summary, "no official summary");
                let head = concat3("- ", b.title.as_str(), ": ");
                let line = concat2(head.as_str(), summary.as_str());
                let ghost before = out@;
                out.push(line);
                proof {
                    assert(string_views(out@) =~= string_views(before).push(line@));
                }
            },
            None => {},
        }
        i = i + 1;
    }
    proof {
        assert(d.bill_ids@.take(d.bill_ids@.len() as int) =~= d.bill_ids@);
    }
    out
}

/// Positions, in order, of the divisions in the same chamber on the same day.
pub open spec fn same_day(all: Seq<Division>, d: Division) -> Seq<int>
    decreases all.len(),
{
    if all.len() == 0 {
        Seq::empty()
    } else {
        let prev = same_day(all.drop_last(), d);
        if all.last().house == d.house && all.last().date@ == d.date@ {
            prev.push(all.len() - 1)
        } else {
            prev
        }
    }
}

/// `p` sorts the positions `sd` by division number, stably.
pub open spec fn by_number(all: Seq<Division>, sd: Seq<int>, p: Seq<usize>) -> bool {
    &&& is_perm(p, sd.len())
    &&& forall|i: int|
        0 <= i < p.len() - 1 ==> all[sd[p[i] as int]].number <= all[sd[#[trigger] p[i + 1] as int]].number
    &&& forall|i: int|
        0 <= i < p.len() - 1 && all[sd[p[i] as int]].number == all[sd[#[trigger] p[i + 1] as int]].number
            ==> p[i] < p[i + 1]
}

pub open spec fn is_perm(p: Seq<usize>, n: nat) -> bool {
    crate::sorting::is_permutation(p, n)
}

/// The same-day lines in the order `p`, the division itself left out.
pub open spec fn day_lines(all: Seq<Division>, sd: Seq<int>, p: Seq<usize>, d: Division) -> Seq<Seq<char>>
    decreases p.len(),
{
    if p.len() == 0 {
        Seq::empty()
    } else {
        let prev = day_lines(all, sd, p.drop_last(), d);
        let other = all[sd[p.last() as int]];
        if other.id@ == d.id@ {
            prev
        } else {
            prev.push("- (division "@ + decimal_int(other.number as int) + ") "@ + other.name@)
        }
    }
}

/// The other divisions of the day, in number order, for a division's context.
pub open spec fn same_day_ok(all: Seq<Division>, d: Division, lines: Seq<Seq<char>>) -> bool {
    exists|p: Seq<usize>| by_number(all, same_day(all, d), p) && lines == day_lines(all, same_day(all, d), p, d)
}

/// The stable order that sorts `keys` ascending.
#[verifier::spinoff_prover]
#[verifier::rlimit(40)]
pub(crate) fn order_by_key(keys: &Vec<i64>) -> (p: Vec<usize>)
    ensures
        is_perm(p@, keys@.len()),
        forall|i: int| 0 <= i < p@.len() - 1 ==> #[trigger] keys@[p@[i] as int] <= keys@[p@[i + 1] as int],
        forall|i: int|
            0 <= i < p@.len() - 1 && #[trigger] keys@[p@[i] as int] == keys@[p@[i + 1] as int] ==> p@[i] < p@[i + 1],
{
    let n = keys.len();
    let mut p: Vec<usize> = Vec::new();
    let mut j: usize = 0;
    while j < n
        invariant
            j <= n == keys@.len(),
            is_perm(p@, j as nat),
            forall|i: int| 0 <= i < p@.len() - 1 ==> #[trigger] keys@[p@[i] as int] <= keys@[p@[i + 1] as int],
            forall|i: int|
                0 <= i < p@.len() - 1 && #[trigger] keys@[p@[i] as int] == keys@[p@[i + 1] as int] ==> p@[i] < p@[i + 1],
        decreases n - j,
    {
        let mut pos: usize = j;
        while pos > 0 && keys[j] < keys[p[pos - 1]]
            invariant
                pos <= j < n == keys@.len(),
                is_perm(p@, j as nat),
                forall|k: int| pos <= k < j ==> keys@[j as int] < keys@[#[trigger] p@[k] as int],
            decreases pos,
        {
            pos = pos - 1;
        }
        let ghost old_p = p@;
        p.insert(pos, j);
        proof {
            let np = p@;
            assert(np == old_p.insert(pos as int, j));
            assert forall|i: int| 0 <= i < j + 1 implies #[trigger] np[i] < j + 1 by {
                if i < pos {
                    assert(np[i] == old_p[i]);
                } else if i > pos {
                    assert(np[i] == old_p[i - 1]);
                }
            }
            assert forall|a: int, b: int| 0 <= a < b < j + 1 implies np[a] != np[b] by {
                if a < pos {
                    assert(np[a] == old_p[a]);
                } else if a > pos {
                    assert(np[a] == old_p[a - 1]);
                }
                if b < pos {
                    assert(np[b] == old_p[b]);
                } else if b > pos {
                    assert(np[b] == old_p[b - 1]);
                }
            }
            assert forall|i: int| 0 <= i < np.len() - 1 implies #[trigger] keys@[np[i] as int] <= keys@[np[i + 1] as int] by {
                if i + 1 < pos {
                    assert(np[i] == old_p[i] && np[i + 1] == old_p[i + 1]);
                } else if i + 1 == pos {
                    assert(np[i] == old_p[i] && np[i + 1] == j);
                } else if i == pos {
                    assert(np[i] == j && np[i + 1] == old_p[i]);
                } else {
                    assert(np[i] == old_p[i - 1] && np[i + 1] == old_p[i]);
                }
            }
            assert forall|i: int|
                0 <= i < np.len() - 1 && #[trigger] keys@[np[i] as int] == keys@[np[i + 1] as int] implies np[i] < np[i + 1] by {
                if i + 1 < pos {
                    assert(np[i] == old_p[i] && np[i + 1] == old_p[i + 1]);
                } else if i + 1 == pos {
                    assert(np[i] == old_p[i] && np[i + 1] == j);
                } else if i == pos {
                    assert(np[i] == j && np[i + 1] == old_p[i]);
                } else {
                    assert(np[i] == old_p[i - 1] && np[i + 1] == old_p[i]);
                }
            }
        }
        j = j + 1;
    }
    p
}

fn same_day_positions(all: &[Division], d: &Division) -> (r: Vec<usize>)
    ensures
        r@.len() == same_day(all@, *d).len(),
        forall|i: int| 0 <= i < r@.len() ==> (#[trigger] r@[i]) as int == same_day(all@, *d)[i],
        forall|i: int| 0 <= i < r@.len() ==> (#[trigger] r@[i]) < all@.len(),
{
    let mut out: Vec<usize> = Vec::new();
    let mut j: usize = 0;
    while j < all.len()
        invariant
            j <= all@.len(),
            out@.len() == same_day(all@.take(j as int), *d).len(),
            forall|i: int| 0 <= i < out@.len() ==> (#[trigger] out@[i]) as int == same_day(all@.take(j as int), *d)[i],
            forall|i: int| 0 <= i < out@.len() ==> (#[trigger] out@[i]) < j,
        decreases all@.len() - j,
    {
        proof {
            assert(all@.take(j + 1).drop_last() =~= all@.take(j as int));
            assert(all@.take(j + 1).last() == all@[j as int]);
        }
        let same_house = match (all[j].house, d.house) {
            (House::Representatives, House::Representatives) => true,
            (House::Senate, House::Senate) => true,
            _ => false,
        };
        if same_house && str_eq(all[j].date.as_str(), d.date.as_str()) {
            out.push(j);
        }
        j = j + 1;
    }
    proof {
        assert(all@.take(all@.len() as int) =~= all@);
    }
    out
}

/// The other divisions in the chamber that day, by number, as lines.
pub fn same_day_lines(all: &[Division], d: &Division) -> (r: Vec<String>)
    ensures
        same_day_ok(all@, *d, string_views(r@)),
{
    let sd = same_day_positions(all, d);
    let ghost sds = same_day(all@, *d);
    let mut nums: Vec<i64> = Vec::new();
    let mut k: usize = 0;
    while k < sd.len()
        invariant
            k <= sd@.len(),
            nums@.len() == k,
            forall|i: int| 0 <= i < sd@.len() ==> (#[trigger] sd@[i]) < all@.len(),
            forall|i: int| 0 <= i < k ==> #[trigger] nums@[i] == all@[sd@[i] as int].number,
        decreases sd@.len() - k,
    {
        nums.push(all[sd[k]].number);
        k = k + 1;
    }
    let p = order_by_key(&nums);
    let mut out: Vec<String> = Vec::new();
    let mut m: usize = 0;
    while m < p.len()
        invariant
            m <= p@.len(),
            p@.len() == sd@.len() == nums@.len(),
            is_perm(p@, sd@.len()),
            forall|i: int| 0 <= i < sd@.len() ==> (#[trigger] sd@[i]) < all@.len(),
            forall|i: int| 0 <= i < sd@.len() ==> (#[trigger] sd@[i]) as int == sds[i],
            sds.len() == sd@.len(),
            string_views(out@) == day_lines(all@, sds, p@.take(m as int), *d),
        decreases p@.len() - m,
    {
        proof {
            assert(p@.take(m + 1).drop_last() =~= p@.take(m as int));
            assert(p@.take(m + 1).last() == p@[m as int]);
            assert(p@[m as int] < sd@.len());
        }
        let other = &all[sd[p[m]]];
        if !str_eq(other.id.as_str(), d.id.as_str()) {
            let n = crate::text::int_text(other.number);
            let head = concat3("- (division ", n.as_str(), ") ");
            let line = concat2(head.as_str(), other.name.as_str());
            let ghost before = out@;
            out.push(line);
            proof {
                assert(string_views(out@) =~= string_views(before).push(line@));
            }
        }
        m = m + 1;
    }
    proof {
        assert(p@.take(p@.len() as int) =~= p@);
        assert forall|i: int| 0 <= i < p@.len() - 1 implies all@[sds[p@[i] as int]].number <= all@[sds[#[trigger] p@[i + 1] as int]].number by {
            assert(nums@[p@[i] as int] <= nums@[p@[i + 1] as int]);
        }
        assert forall|i: int| 0 <= i < p@.len() - 1 && all@[sds[p@[i] as int]].number == all@[sds[#[trigger] p@[i + 1] as int]].number implies p@[i] < p@[i + 1] by {
            assert(nums@[p@[i] as int] == nums@[p@[i + 1] as int]);
        }
        assert(by_number(all@, sds, p@));
    }
    out
}

pub open spec fn house_label(h: House) -> Seq<char> {
    match h {
        House::Senate => "Senate"@,
        House::Representatives => "House of Representatives"@,
    }
}

/// A titled block of lines, or nothing when there are none.
pub open spec fn block(title: Seq<char>, lines: Seq<Seq<char>>) -> Seq<char> {
    let joined = join_spec(lines, "\n"@);
    if joined.len() == 0 {
        Seq::empty()
    } else {
        title + joined + "\n"@
    }
}

pub const EXCERPT_UNITS: usize = 2200;

/// One division as the model sees it.
pub open spec fn division_item(d: Division, related: Seq<Seq<char>>, same: Seq<Seq<char>>) -> Seq<char> {
    "<division id=\""@ + d.id@ + "\">\nMotion: "@ + d.name@ + " (division "@ + decimal_int(d.number as int)
        + " of the day)\nHouse: "@ + house_label(d.house) + ", Date: "@ + d.date@ + "\n"@ + block(
        "Related bills (official summaries):\n"@,
        related,
    ) + block("Other divisions in this chamber the same day, in order:\n"@, same)
        + "Official record excerpt:\n"@ + utf16_take(summary_or(d.summary, Seq::empty()), EXCERPT_UNITS as int)
        + "\n</division>"@
}

fn house_label_exec(h: House) -> (r: &'static str)
    ensures
        r@ == house_label(h),
{
    match h {
        House::Senate => "Senate",
        House::Representatives => "House of Representatives",
    }
}

fn block_exec(title: &str, lines: &Vec<String>) -> (r: String)
    ensures
        r@ == block(title@, string_views(lines@)),
{
    let joined = join_with(lines, "\n");
    if joined.as_str().unicode_len() == 0 {
        proof {
            reveal_strlit("");
        }
        owned("")
    } else {
        concat3(title, joined.as_str(), "\n")
    }
}

fn division_item_exec(d: &Division, related: &Vec<String>, same: &Vec<String>) -> (r: String)
    ensures
        r@ == division_item(*d, string_views(related@), string_views(same@)),
{
    let n = crate::text::int_text(d.number);
    let a = concat3("<division id=\"", d.id.as_str(), "\">\nMotion: ");
    let b = concat3(a.as_str(), d.name.as_str(), " (division ");
    let c = concat3(b.as_str(), n.as_str(), " of the day)\nHouse: ");
    let e = concat3(c.as_str(), house_label_exec(d.house), ", Date: ");
    let f = concat3(e.as_str(), d.date.as_str(), "\n");
    let rb = block_exec("Related bills (official summaries):\n", related);
    let sb = block_exec("Other divisions in this chamber the same day, in order:\n", same);
    let g = concat3(f.as_str(), rb.as_str(), sb.as_str());
    let summary = text_or(&d.summary, "");
    proof {
        reveal_strlit("");
        assert(summary@ == summary_or(d.summary, Seq::empty()));
    }
    let excerpt = utf16_slice(summary.as_str(), EXCERPT_UNITS);
    let h = concat3(g.as_str(), "Official record excerpt:\n", excerpt.as_str());
    concat2(h.as_str(), "\n</division>")
}

/// The prompt text for a batch, given each division's same-day lines.
pub open spec fn division_prompt_text(batch: Seq<Division>, e: Seq<(Seq<char>, Bill)>, same: Seq<Seq<Seq<char>>>) -> Seq<char> {
    DIVISION_PROMPT_HEAD@ + join_spec(
        Seq::new(batch.len(), |i: int| division_item(batch[i], related_lines(batch[i].bill_ids@, e), same[i])),
        "\n\n"@,
    )
}

/// The prompt for a batch of divisions: each with the bills it cites and
/// the other divisions of its day, and an excerpt of its record.
pub fn division_prompt(batch: &[Division], all: &[Division], bills: &indexmap::IndexMap<String, Bill>) -> (r: String)
    ensures
        exists|same: Seq<Seq<Seq<char>>>|
            {
                &&& same.len() == batch@.len()
                &&& forall|i: int| 0 <= i < batch@.len() ==> same_day_ok(all@, batch@[i], #[trigger] same[i])
                &&& r@ == #[trigger] division_prompt_text(batch@, bill_entries(*bills), same)
            },
{
    let mut items: Vec<String> = Vec::new();
    let ghost mut same: Seq<Seq<Seq<char>>> = Seq::empty();
    let mut i: usize = 0;
    while i < batch.len()
        invariant
            i <= batch@.len(),
            same.len() == i,
            items@.len() == i,
            forall|k: int| 0 <= k < i ==> same_day_ok(all@, batch@[k], #[trigger] same[k]),
            forall|k: int|
                0 <= k < i ==> (#[trigger] items@[k])@ == division_item(
                    batch@[k],
                    related_lines(batch@[k].bill_ids@, bill_entries(*bills)),
                    same[k],
                ),
        decreases batch@.len() - i,
    {
        let d = &batch[i];
        let related = related_of(d, bills);
        let lines = same_day_lines(all, d);
        let item = division_item_exec(d, &related, &lines);
        items.push(item);
        proof {
            same = same.push(string_views(lines@));
        }
        i = i + 1;
    }
    let joined = join_with(&items, "\n\n");
    proof {
        assert(string_views(items@) =~= Seq::new(
            batch@.len(),
            |k: int| division_item(batch@[k], related_lines(batch@[k].bill_ids@, bill_entries(*bills)), same[k]),
        ));
    }
    let r = concat2(DIVISION_PROMPT_HEAD, joined.as_str());
    assert(r@ == division_prompt_text(batch@, bill_entries(*bills), same));
    r
}


// ---------------------------------------------------------------------------
// Person notes
// ---------------------------------------------------------------------------

/// One of a person's recorded votes.
#[derive(Debug, Clone)]
pub struct PersonVoteRow {
    pub date: String,
    pub name: String,
    pub vote: Vote,
    pub crossed: bool,
}

pub open spec fn row_view(r: PersonVoteRow) -> (Seq<char>, Seq<char>, Vote, bool) {
    (r.date@, r.name@, r.vote, r.crossed)
}

pub open spec fn row_views(v: Seq<PersonVoteRow>) -> Seq<(Seq<char>, Seq<char>, Vote, bool)> {
    v.map_values(|r: PersonVoteRow| row_view(r))
}

/// The person's votes in one division.
pub open spec fn votes_in(d: Division, votes: Seq<crate::schema::VoteCast>, slug: Seq<char>) -> Seq<(Seq<char>, Seq<char>, Vote, bool)>
    decreases votes.len(),
{
    if votes.len() == 0 {
        Seq::empty()
    } else {
        let prev = votes_in(d, votes.drop_last(), slug);
        let v = votes.last();
        if v.person_slug@ == slug {
            prev.push((d.date@, d.name@, v.vote, v.against_group_majority == Some(true)))
        } else {
            prev
        }
    }
}

/// A person's votes across the divisions, in division order.
pub open spec fn person_rows(divs: Seq<Division>, slug: Seq<char>) -> Seq<(Seq<char>, Seq<char>, Vote, bool)>
    decreases divs.len(),
{
    if divs.len() == 0 {
        Seq::empty()
    } else {
        person_rows(divs.drop_last(), slug) + votes_in(divs.last(), divs.last().votes@, slug)
    }
}

proof fn lemma_votes_in(
    d: Division,
    votes: Seq<crate::schema::VoteCast>,
    slug: Seq<char>,
    pred: spec_fn(crate::schema::VoteCast) -> bool,
    row: spec_fn(crate::schema::VoteCast) -> (Seq<char>, Seq<char>, Vote, bool),
)
    requires
        forall|v: crate::schema::VoteCast| #[trigger] pred(v) == (v.person_slug@ == slug),
        forall|v: crate::schema::VoteCast|
            #[trigger] row(v) == (d.date@, d.name@, v.vote, v.against_group_majority == Some(true)),
    ensures
        votes_in(d, votes, slug) == votes.filter(pred).map_values(row),
    decreases votes.len(),
{
    reveal_with_fuel(Seq::filter, 1);
    if votes.len() > 0 {
        lemma_votes_in(d, votes.drop_last(), slug, pred, row);
        let f = votes.drop_last().filter(pred);
        if pred(votes.last()) {
            assert(f.push(votes.last()).map_values(row) =~= f.map_values(row).push(row(votes.last())));
        }
    } else {
        assert(votes.filter(pred).map_values(row) =~= Seq::empty());
    }
}

proof fn lemma_person_rows(
    divs: Seq<Division>,
    slug: Seq<char>,
    per: spec_fn(Division) -> Seq<(Seq<char>, Seq<char>, Vote, bool)>,
)
    requires
        forall|d: Division| #[trigger] per(d) == votes_in(d, d.votes@, slug),
    ensures
        person_rows(divs, slug) == divs.map_values(per).flatten_alt(),
    decreases divs.len(),
{
    if divs.len() > 0 {
        lemma_person_rows(divs.drop_last(), slug, per);
        assert(divs.map_values(per).drop_last() =~= divs.drop_last().map_values(per));
        assert(divs.map_values(per).last() == per(divs.last()));
    } else {
        assert(divs.map_values(per) =~= Seq::empty());
    }
}

/// A person's vote rows are the person's recorded votes, division by
/// division and in order: each row has its division's date and name and the
/// recorded vote, and is marked crossed exactly when the recorded vote went
/// against the group majority (`Some(true)`).
pub proof fn law_vote_rows_mark_crossings(divs: Seq<Division>, slug: Seq<char>, rows: Seq<PersonVoteRow>)
    requires
        row_views(rows) == person_rows(divs, slug),
    ensures
        ({
            let recorded = divs.map_values(
                |d: Division|
                    d.votes@.filter(|v: crate::schema::VoteCast| v.person_slug@ == slug).map_values(
                        |v: crate::schema::VoteCast|
                            (d.date@, d.name@, v.vote, v.against_group_majority == Some(true)),
                    ),
            ).flatten();
            &&& rows.len() == recorded.len()
            &&& forall|k: int|
                0 <= k < rows.len() ==> (#[trigger] rows[k]).date@ == recorded[k].0 && rows[k].name@
                    == recorded[k].1 && rows[k].vote == recorded[k].2 && rows[k].crossed == recorded[k].3
        }),
{
    let per = |d: Division|
        d.votes@.filter(|v: crate::schema::VoteCast| v.person_slug@ == slug).map_values(
            |v: crate::schema::VoteCast| (d.date@, d.name@, v.vote, v.against_group_majority == Some(true)),
        );
    assert forall|d: Division| #[trigger] per(d) == votes_in(d, d.votes@, slug) by {
        lemma_votes_in(
            d,
            d.votes@,
            slug,
            |v: crate::schema::VoteCast| v.person_slug@ == slug,
            |v: crate::schema::VoteCast| (d.date@, d.name@, v.vote, v.against_group_majority == Some(true)),
        );
    }
    lemma_person_rows(divs, slug, per);
    divs.map_values(per).lemma_flatten_and_flatten_alt_are_equivalent();
    let recorded = divs.map_values(per).flatten();
    assert(row_views(rows) == recorded);
    assert forall|k: int| 0 <= k < rows.len() implies (#[trigger] rows[k]).date@ == recorded[k].0
        && rows[k].name@ == recorded[k].1 && rows[k].vote == recorded[k].2 && rows[k].crossed
        == recorded[k].3 by {
        assert(row_views(rows)[k] == row_view(rows[k]));
    }
}

pub fn person_vote_rows(divisions: &[Division], slug: &str) -> (r: Vec<PersonVoteRow>)
    ensures
        row_views(r@) == person_rows(divisions@, slug@),
{
    let mut out: Vec<PersonVoteRow> = Vec::new();
    let mut i: usize = 0;
    while i < divisions.len()
        invariant
            i <= divisions@.len(),
            row_views(out@) == person_rows(divisions@.take(i as int), slug@),
        decreases divisions@.len() - i,
    {
        let d = &divisions[i];
        let ghost base = out@;
        proof {
            assert(divisions@.take(i + 1).drop_last() =~= divisions@.take(i as int));
            assert(divisions@.take(i + 1).last() == divisions@[i as int]);
        }
        let mut k: usize = 0;
        while k < d.votes.len()
            invariant
                k <= d.votes@.len(),
                row_views(out@) == row_views(base) + votes_in(*d, d.votes@.take(k as int), slug@),
            decreases d.votes@.len() - k,
        {
            proof {
                assert(d.votes@.take(k + 1).drop_last() =~= d.votes@.take(k as int));
                assert(d.votes@.take(k + 1).last() == d.votes@[k as int]);
            }
            let v = &d.votes[k];
            if str_eq(v.person_slug.as_str(), slug) {
                let crossed = match v.against_group_majority {
                    Some(b) => b,
                    None => false,
                };
                let ghost before = out@;
                out.push(PersonVoteRow { date: d.date.clone(), name: d.name.clone(), vote: v.vote, crossed });
                proof {
                    assert(row_views(out@) =~= row_views(before).push(row_view(out@.last())));
                }
            }
            k = k + 1;
        }
        proof {
            assert(d.votes@.take(d.votes@.len() as int) =~= d.votes@);
        }
        i = i + 1;
    }
    proof {
        assert(divisions@.take(divisions@.len() as int) =~= divisions@);
    }
    out
}

/// How many divisions were held in a chamber.
pub open spec fn chamber_count(divs: Seq<Division>, house: House) -> nat
    decreases divs.len(),
{
    if divs.len() == 0 {
        0
    } else {
        chamber_count(divs.drop_last(), house) + if divs.last().house == house {
            1nat
        } else {
            0nat
        }
    }
}

pub fn chamber_divisions(divisions: &[Division], house: House) -> (r: usize)
    ensures
        r == chamber_count(divisions@, house),
{
    let mut n: usize = 0;
    let mut i: usize = 0;
    while i < divisions.len()
        invariant
            i <= divisions@.len(),
            n == chamber_count(divisions@.take(i as int), house),
            n <= i,
        decreases divisions@.len() - i,
    {
        proof {
            assert(divisions@.take(i + 1).drop_last() =~= divisions@.take(i as int));
            assert(divisions@.take(i + 1).last() == divisions@[i as int]);
        }
        let same = match (divisions[i].house, house) {
            (House::Representatives, House::Representatives) => true,
            (House::Senate, House::Senate) => true,
            _ => false,
        };
        if same {
            n = n + 1;
        }
        i = i + 1;
    }
    proof {
        assert(divisions@.take(divisions@.len() as int) =~= divisions@);
    }
    n
}

pub open spec fn vote_word(v: Vote) -> Seq<char> {
    match v {
        Vote::Aye => "aye"@,
        Vote::No => "no"@,
    }
}

/// `{date} | {division} | voted {aye|no}`, marked when it crossed.
pub open spec fn row_line(r: (Seq<char>, Seq<char>, Vote, bool)) -> Seq<char> {
    r.0 + " | "@ + r.1 + " | voted "@ + vote_word(r.2) + if r.3 {
        " | crossed"@
    } else {
        Seq::empty()
    }
}

pub open spec fn crossed_count(rows: Seq<(Seq<char>, Seq<char>, Vote, bool)>) -> nat
    decreases rows.len(),
{
    if rows.len() == 0 {
        0
    } else {
        crossed_count(rows.drop_last()) + if rows.last().3 {
            1nat
        } else {
            0nat
        }
    }
}

/// The prompt for one person's note.
pub open spec fn note_prompt_text(p: Person, rows: Seq<(Seq<char>, Seq<char>, Vote, bool)>, total: nat) -> Seq<char> {
    let crossed = crossed_count(rows);
    NOTE_PROMPT_0@ + p.name@ + NOTE_PROMPT_1@ + p.group@ + NOTE_PROMPT_2@ + house_label(p.house)
        + NOTE_PROMPT_3@ + decimal_int(rows.len() as int) + NOTE_PROMPT_4@ + decimal_int(total as int)
        + NOTE_PROMPT_5@ + decimal_int(crossed as int) + NOTE_PROMPT_6@ + (if crossed == 1 {
        Seq::empty()
    } else {
        "s"@
    }) + NOTE_PROMPT_7@ + join_spec(rows.map_values(|r: (Seq<char>, Seq<char>, Vote, bool)| row_line(r)), "\n"@)
        + NOTE_PROMPT_8@
}

pub fn note_prompt(person: &Person, rows: &Vec<PersonVoteRow>, chamber_total: usize) -> (r: String)
    requires
        rows@.len() <= i64::MAX,
        chamber_total <= i64::MAX,
    ensures
        r@ == note_prompt_text(*person, row_views(rows@), chamber_total as nat),
{
    let ghost rv = row_views(rows@);
    let mut lines: Vec<String> = Vec::new();
    let mut crossed: usize = 0;
    let mut i: usize = 0;
    while i < rows.len()
        invariant
            i <= rows@.len() <= i64::MAX,
            rv == row_views(rows@),
            crossed == crossed_count(rv.take(i as int)),
            crossed <= i,
            string_views(lines@) == rv.take(i as int).map_values(|r: (Seq<char>, Seq<char>, Vote, bool)| row_line(r)),
        decreases rows@.len() - i,
    {
        proof {
            assert(rv.take(i + 1).drop_last() =~= rv.take(i as int));
            assert(rv.take(i + 1).last() == row_view(rows@[i as int]));
        }
        let r = &rows[i];
        let word = match r.vote {
            Vote::Aye => "aye",
            Vote::No => "no",
        };
        let a = concat3(r.date.as_str(), " | ", r.name.as_str());
        let b = concat3(a.as_str(), " | voted ", word);
        let line = if r.crossed {
            concat2(b.as_str(), " | crossed")
        } else {
            b
        };
        proof {
            reveal_strlit("");
            assert(line@ == row_line(row_view(*r))) by {
                if !r.crossed {
                    assert(b@ + Seq::<char>::empty() =~= b@);
                }
            }
        }
        if r.crossed {
            crossed = crossed + 1;
        }
        let ghost before = lines@;
        lines.push(line);
        proof {
            assert(string_views(lines@) =~= string_views(before).push(row_line(row_view(*r))));
            assert(rv.take(i + 1).map_values(|r: (Seq<char>, Seq<char>, Vote, bool)| row_line(r)) =~= rv.take(
                i as int,
            ).map_values(|r: (Seq<char>, Seq<char>, Vote, bool)| row_line(r)).push(row_line(row_view(*r))));
        }
        i = i + 1;
    }
    proof {
        assert(rv.take(rv.len() as int) =~= rv);
    }
    let joined = join_with(&lines, "\n");
    let voted = crate::text::int_text(rows.len() as i64);
    let total = crate::text::int_text(chamber_total as i64);
    let crossed_text = crate::text::int_text(crossed as i64);
    let plural = if crossed == 1 {
        ""
    } else {
        "s"
    };
    let a = concat3(NOTE_PROMPT_0, person.name.as_str(), NOTE_PROMPT_1);
    let b = concat3(a.as_str(), person.group.as_str(), NOTE_PROMPT_2);
    let c = concat3(b.as_str(), house_label_exec(person.house), NOTE_PROMPT_3);
    let d = concat3(c.as_str(), voted.as_str(), NOTE_PROMPT_4);
    let e = concat3(d.as_str(), total.as_str(), NOTE_PROMPT_5);
    let f = concat3(e.as_str(), crossed_text.as_str(), NOTE_PROMPT_6);
    let g = concat3(f.as_str(), plural, NOTE_PROMPT_7);
    let r = concat3(g.as_str(), joined.as_str(), NOTE_PROMPT_8);
    proof {
        reveal_strlit("");
    }
    r
}

} // verus!
