//! Run configuration: where each source lives and how fast it may be polled,
//! the fetch options and retry rule, the command-line options, the local
//! store's layout, the bucket setting and the content type of each key.

use crate::text::{
    chars_of, concat2, concat3, ends_with, has_suffix, owned, split_chars, split_seq, str_eq,
    string_of, trim_chars, trim_seq, views_of,
};
use std::path::PathBuf;
use crate::text::string_views;
use vstd::prelude::*;

verus! {

#[verifier::external_type_specification]
#[verifier::external_body]
pub struct ExPathBuf(PathBuf);

/// Where each source lives and how fast it may be polled.
#[derive(Clone)]
pub struct Endpoints {
    /// They Vote For You API root, no trailing slash.
    pub tvfy: String,
    /// Parliamentary Handbook OData root, no trailing slash.
    pub handbook: String,
    /// ParlWork API root: the SPA behind APH's own bills list.
    pub parlwork: String,
    pub wikidata_sparql: String,
    pub commons_api: String,
    /// Commons file host, the one that serves Special:FilePath thumbnails.
    pub commons_files: String,
    /// AEC results host, the parent of the per-event download directories.
    pub aec_results: String,
    /// AEC website root serving the electorate profile pages.
    pub aec_profiles: String,
    /// Replaces every source's own per-host spacing when set.
    pub min_interval_ms: Option<u64>,
    /// Retry backoff base, in the same spirit.
    pub backoff_ms: Option<u64>,
}

impl Default for Endpoints {
    fn default() -> (r: Self)
        ensures
            r.tvfy@ == "https://theyvoteforyou.org.au/api/v1"@,
            r.handbook@ == "https://handbookapi.aph.gov.au/api"@,
            r.parlwork@ == "https://parlwork.aph.gov.au/api"@,
            r.wikidata_sparql@ == "https://query.wikidata.org/sparql"@,
            r.commons_api@ == "https://commons.wikimedia.org/w/api.php"@,
            r.commons_files@ == "https://commons.wikimedia.org"@,
            r.aec_results@ == "https://results.aec.gov.au"@,
            r.aec_profiles@ == "https://www.aec.gov.au"@,
            r.min_interval_ms is None,
            r.backoff_ms is None,
    {
        Endpoints {
            tvfy: owned("https://theyvoteforyou.org.au/api/v1"),
            handbook: owned("https://handbookapi.aph.gov.au/api"),
            parlwork: owned("https://parlwork.aph.gov.au/api"),
            wikidata_sparql: owned("https://query.wikidata.org/sparql"),
            commons_api: owned("https://commons.wikimedia.org/w/api.php"),
            commons_files: owned("https://commons.wikimedia.org"),
            aec_results: owned("https://results.aec.gov.au"),
            aec_profiles: owned("https://www.aec.gov.au"),
            min_interval_ms: None,
            backoff_ms: None,
        }
    }
}

impl Endpoints {
    /// Fetch options carrying this source's polite spacing, unless the config
    /// overrides it.
    pub fn opts(&self, min_interval_ms: u64) -> (r: FetchOpts)
        ensures
            r.min_interval_ms == Some(
                match self.min_interval_ms {
                    Some(v) => v,
                    None => min_interval_ms,
                },
            ),
            r.backoff_ms == self.backoff_ms,
            r.accept is None,
            r.headers@.len() == 0,
            r.post_json is None,
            r.max_attempts is None,
    {
        let spacing = match self.min_interval_ms {
            Some(v) => v,
            None => min_interval_ms,
        };
        FetchOpts {
            min_interval_ms: Some(spacing),
            accept: None,
            headers: Vec::new(),
            post_json: None,
            max_attempts: None,
            backoff_ms: self.backoff_ms,
        }
    }

    /// Every host pointed at one local server, with the pacing out of the way.
    pub fn at(base: &str) -> (r: Self)
        ensures
            r.tvfy@ == base@ + "/tvfy"@,
            r.handbook@ == base@ + "/handbook"@,
            r.parlwork@ == base@ + "/parlwork"@,
            r.wikidata_sparql@ == base@ + "/sparql"@,
            r.commons_api@ == base@ + "/commons"@,
            r.commons_files@ == base@ + "/commons-files"@,
            r.aec_results@ == base@ + "/aec-results"@,
            r.aec_profiles@ == base@ + "/aec"@,
            r.min_interval_ms == Some(1u64),
            r.backoff_ms == Some(1u64),
    {
        Endpoints {
            tvfy: concat2(base, "/tvfy"),
            handbook: concat2(base, "/handbook"),
            parlwork: concat2(base, "/parlwork"),
            wikidata_sparql: concat2(base, "/sparql"),
            commons_api: concat2(base, "/commons"),
            commons_files: concat2(base, "/commons-files"),
            aec_results: concat2(base, "/aec-results"),
            aec_profiles: concat2(base, "/aec"),
            min_interval_ms: Some(1),
            backoff_ms: Some(1),
        }
    }
}

/// How one request is made: spacing, headers, body and retry budget.
#[derive(Clone)]
pub struct FetchOpts {
    /// Minimum spacing between requests to the same host; defaults to 1000ms.
    pub min_interval_ms: Option<u64>,
    pub accept: Option<String>,
    pub headers: Vec<(String, String)>,
    pub post_json: Option<String>,
    /// Tries before a retryable status is given up on; defaults to 4.
    pub max_attempts: Option<u32>,
    /// Backoff base, multiplied by the attempt number. Defaults to 20s for a
    /// 429 (a per-minute quota needs real time to clear) and 2s otherwise.
    pub backoff_ms: Option<u64>,
}

impl Default for FetchOpts {
    fn default() -> (r: Self)
        ensures
            r.min_interval_ms is None,
            r.accept is None,
            r.headers@.len() == 0,
            r.post_json is None,
            r.max_attempts is None,
            r.backoff_ms is None,
    {
        FetchOpts {
            min_interval_ms: None,
            accept: None,
            headers: Vec::new(),
            post_json: None,
            max_attempts: None,
            backoff_ms: None,
        }
    }
}

pub open spec fn header_views(h: Seq<(String, String)>) -> Seq<(Seq<char>, Seq<char>)> {
    h.map_values(|p: (String, String)| (p.0@, p.1@))
}

impl FetchOpts {
    pub fn min_interval(ms: u64) -> (r: Self)
        ensures
            r.min_interval_ms == Some(ms),
            r.accept is None,
            r.headers@.len() == 0,
            r.post_json is None,
            r.max_attempts is None,
            r.backoff_ms is None,
    {
        FetchOpts {
            min_interval_ms: Some(ms),
            accept: None,
            headers: Vec::new(),
            post_json: None,
            max_attempts: None,
            backoff_ms: None,
        }
    }

    pub fn with_header(self, name: &str, value: &str) -> (r: Self)
        ensures
            header_views(r.headers@) == header_views(self.headers@).push((name@, value@)),
            r.min_interval_ms == self.min_interval_ms,
            r.accept == self.accept,
            r.post_json == self.post_json,
            r.max_attempts == self.max_attempts,
            r.backoff_ms == self.backoff_ms,
    {
        let mut this = self;
        let ghost before = this.headers@;
        this.headers.push((owned(name), owned(value)));
        assert(header_views(this.headers@) =~= header_views(before).push((name@, value@)));
        this
    }
}

/// The identifying user agent every request carries unless a caller
/// supplies its own.
pub const USER_AGENT: &'static str = "pollywiki/0.1 (https://pollywiki.au; contact: logan@han.life)";

/// What a fetch does after a response arrives.
#[derive(Debug, Clone, Copy, PartialEq, Eq, Structural)]
pub enum FetchStep {
    /// A 2xx: the response is handed back.
    Done,
    /// A final failure: not retryable, or the attempts are spent.
    Fail,
    /// Wait this many milliseconds, then try again.
    RetryAfter(u64),
}

pub open spec fn is_retryable(status: u16) -> bool {
    status == 429 || status >= 500
}

pub open spec fn attempts_allowed(opts: FetchOpts) -> u32 {
    match opts.max_attempts {
        Some(n) => n,
        None => 4,
    }
}

/// Backoff base for a status: the caller's, else 20s for a 429 (per-minute
/// quotas need real time to clear) and 2s otherwise.
pub open spec fn backoff_base(opts: FetchOpts, status: u16) -> u64 {
    match opts.backoff_ms {
        Some(b) => b,
        None => if status == 429 {
            20_000
        } else {
            2_000
        },
    }
}

/// The step after the answer to attempt `attempt`.
pub open spec fn step_spec(opts: FetchOpts, status: u16, attempt: u32) -> FetchStep {
    if 200 <= status < 300 {
        FetchStep::Done
    } else if !is_retryable(status) || attempt >= attempts_allowed(opts) {
        FetchStep::Fail
    } else {
        FetchStep::RetryAfter(
            if attempt * backoff_base(opts, status) <= u64::MAX {
                (attempt * backoff_base(opts, status)) as u64
            } else {
                u64::MAX
            },
        )
    }
}

/// A fetch run from attempt `k + 1` on, given the answer to each attempt:
/// how many attempts it makes, and whether it ends with a success.
pub open spec fn fetch_run(opts: FetchOpts, answers: Seq<u16>, k: nat) -> (nat, bool)
    decreases answers.len() - k,
{
    if k >= answers.len() || k + 1 > u32::MAX {
        (k, false)
    } else {
        match step_spec(opts, answers[k as int], (k + 1) as u32) {
            FetchStep::Done => (k + 1, true),
            FetchStep::Fail => (k + 1, false),
            FetchStep::RetryAfter(_) => fetch_run(opts, answers, k + 1),
        }
    }
}

proof fn lemma_fetch_run(opts: FetchOpts, answers: Seq<u16>, k: nat)
    requires
        k < answers.len(),
        k < attempts_allowed(opts) || k == 0,
    ensures
        fetch_run(opts, answers, k).0 <= if attempts_allowed(opts) > k + 1 {
            attempts_allowed(opts) as int
        } else {
            (k + 1) as int
        },
        fetch_run(opts, answers, k).0 >= k + 1,
        fetch_run(opts, answers, k).1 ==> 200 <= answers[fetch_run(opts, answers, k).0 - 1] < 300,
        !fetch_run(opts, answers, k).1 ==> !(200 <= answers[fetch_run(opts, answers, k).0 - 1] < 300)
            && (!is_retryable(answers[fetch_run(opts, answers, k).0 - 1])
            || fetch_run(opts, answers, k).0 >= attempts_allowed(opts)
            || fetch_run(opts, answers, k).0 == answers.len()),
        forall|j: int|
            k <= j < fetch_run(opts, answers, k).0 - 1 ==> #[trigger] is_retryable(answers[j]) && !(200
                <= answers[j] < 300),
    decreases answers.len() - k,
{
    assert(k + 1 <= u32::MAX);
    let step = step_spec(opts, answers[k as int], (k + 1) as u32);
    match step {
        FetchStep::RetryAfter(_) => {
            assert(k + 1 < attempts_allowed(opts));
            assert(fetch_run(opts, answers, k) == fetch_run(opts, answers, k + 1));
            if k + 1 < answers.len() {
                lemma_fetch_run(opts, answers, k + 1);
            } else {
                assert(fetch_run(opts, answers, k + 1) == (k + 1, false));
            }
        },
        _ => {},
    }
}

/// However the server answers, a polite fetch makes at most as many
/// attempts as allowed (one at least): it retries only rate limits and
/// server errors, it succeeds only on a 2xx answer, and when it gives up
/// the last answer was a failure that is final or came with the attempts
/// spent.
pub proof fn law_retries_are_bounded(opts: FetchOpts, answers: Seq<u16>)
    requires
        answers.len() > 0,
    ensures
        1 <= fetch_run(opts, answers, 0).0 <= if attempts_allowed(opts) > 1 {
            attempts_allowed(opts) as int
        } else {
            1int
        },
        fetch_run(opts, answers, 0).1 ==> 200 <= answers[fetch_run(opts, answers, 0).0 - 1] < 300,
        answers.len() >= attempts_allowed(opts) && !fetch_run(opts, answers, 0).1 ==> !(200
            <= answers[fetch_run(opts, answers, 0).0 - 1] < 300) && (!is_retryable(
            answers[fetch_run(opts, answers, 0).0 - 1])
            || fetch_run(opts, answers, 0).0 >= attempts_allowed(opts)),
        forall|j: int|
            0 <= j < fetch_run(opts, answers, 0).0 - 1 ==> #[trigger] is_retryable(answers[j]) && !(200
                <= answers[j] < 300),
{
    lemma_fetch_run(opts, answers, 0);
}

/// The retry rule of a polite fetch, for the response to attempt `attempt`
/// (counted from 1). Success ends the fetch; a 429 or 5xx is retried after
/// `attempt` times the backoff base until the attempts are spent; anything
/// else fails at once.
pub fn next_step(opts: &FetchOpts, status: u16, attempt: u32) -> (r: FetchStep)
    requires
        attempt >= 1,
    ensures
        r == step_spec(*opts, status, attempt),
        (200 <= status < 300) ==> r == FetchStep::Done,
        !(200 <= status < 300) && (!is_retryable(status) || attempt >= attempts_allowed(*opts))
            ==> r == FetchStep::Fail,
        !(200 <= status < 300) && is_retryable(status) && attempt < attempts_allowed(*opts) ==> r
            == FetchStep::RetryAfter(
            if attempt * backoff_base(*opts, status) <= u64::MAX {
                (attempt * backoff_base(*opts, status)) as u64
            } else {
                u64::MAX
            },
        ),
{
    if 200 <= status && status < 300 {
        return FetchStep::Done;
    }
    let retryable = status == 429 || status >= 500;
    let max_attempts = match opts.max_attempts {
        Some(n) => n,
        None => 4,
    };
    if !retryable || attempt >= max_attempts {
        return FetchStep::Fail;
    }
    let base: u64 = match opts.backoff_ms {
        Some(b) => b,
        None => if status == 429 {
            20_000
        } else {
            2_000
        },
    };
    let wait = (attempt as u64).checked_mul(base);
    match wait {
        Some(w) => FetchStep::RetryAfter(w),
        None => FetchStep::RetryAfter(u64::MAX),
    }
}

/// What `reqwest::Url::parse` then `host_str` make of a URL: its host, no
/// host, or (as `Err`) the parse error's text. The URL grammar takes pages
/// to state, so the result is named.
pub uninterp spec fn url_host(url: Seq<char>) -> Result<Option<Seq<char>>, Seq<char>>;

pub open spec fn host_view(r: Result<Option<String>, String>) -> Result<Option<Seq<char>>, Seq<char>> {
    match r {
        Ok(Some(h)) => Ok(Some(h@)),
        Ok(None) => Ok(None),
        Err(e) => Err(e@),
    }
}

/// `Url::parse` (reqwest's re-export of the url crate) and `Url::host_str`,
/// the error written out as its message.
#[verifier::external_body]
fn parse_host(url: &str) -> (r: Result<Option<String>, String>)
    ensures
        host_view(r) == url_host(url@),
{
    match reqwest::Url::parse(url) {
        Ok(u) => Ok(u.host_str().map(|h| h.to_string())),
        Err(e) => Err(e.to_string()),
    }
}

/// Why a request has no host to be spaced by.
#[derive(Debug, Clone)]
pub enum HostError {
    /// The URL does not parse; the parser's message.
    Unparsable(String),
    /// The URL parses but names no host (a `file:` URL, say).
    NoHost,
}

impl HostError {
    pub fn message(&self, url: &str) -> (r: String)
        ensures
            r@ == match self {
                HostError::Unparsable(m) => m@,
                HostError::NoHost => "no host in "@ + url@,
            },
    {
        match self {
            HostError::Unparsable(m) => m.clone(),
            HostError::NoHost => concat2("no host in ", url),
        }
    }
}

/// The host a request goes to, which requests are spaced per; a URL without
/// one is refused before any request.
pub fn request_host(url: &str) -> (r: Result<String, HostError>)
    ensures
        match url_host(url@) {
            Ok(Some(h)) => r matches Ok(s) && s@ == h,
            Ok(None) => r matches Err(HostError::NoHost),
            Err(m) => r matches Err(HostError::Unparsable(t)) && t@ == m,
        },
{
    match parse_host(url) {
        Ok(Some(h)) => Ok(h),
        Ok(None) => Err(HostError::NoHost),
        Err(m) => Err(HostError::Unparsable(m)),
    }
}

/// The spacing between requests to one host: the caller's, else one second.
pub open spec fn spacing_ms(opts: FetchOpts) -> u64 {
    match opts.min_interval_ms {
        Some(m) => m,
        None => 1000,
    }
}

pub fn min_interval_of(opts: &FetchOpts) -> (r: u64)
    ensures
        r == spacing_ms(*opts),
{
    match opts.min_interval_ms {
        Some(m) => m,
        None => 1000,
    }
}

/// When the next request to a host may go out: at once when the host has
/// no booked request, else no sooner than the last booking plus the spacing.
pub open spec fn slot_time(last_ms: Option<u64>, now_ms: u64, interval_ms: u64) -> int {
    match last_ms {
        Some(l) => if l + interval_ms > now_ms {
            l + interval_ms
        } else {
            now_ms as int
        },
        None => now_ms as int,
    }
}

/// Book the next request to a host: how long to wait from `now_ms`, and the
/// time now booked for the host.
pub fn reserve_slot(last_ms: Option<u64>, now_ms: u64, interval_ms: u64) -> (r: (u64, u64))
    requires
        last_ms matches Some(l) ==> l + interval_ms <= u64::MAX,
    ensures
        r.1 == slot_time(last_ms, now_ms, interval_ms),
        r.0 == r.1 - now_ms,
{
    match last_ms {
        Some(l) => {
            let next = l + interval_ms;
            if next > now_ms {
                (next - now_ms, next)
            } else {
                (0, now_ms)
            }
        },
        None => (0, now_ms),
    }
}

/// Requests to one host are spaced by the minimum interval: a booking made
/// after another is never sooner than the earlier one plus the spacing, and
/// never in the past.
pub proof fn law_requests_are_spaced(last_ms: u64, now_ms: u64, interval_ms: u64)
    ensures
        slot_time(Some(last_ms), now_ms, interval_ms) >= last_ms + interval_ms,
        slot_time(Some(last_ms), now_ms, interval_ms) >= now_ms,
{
}

/// The accept header `fetch_json` sends: the caller's, else JSON.
pub fn json_accept(opts: &FetchOpts) -> (r: String)
    ensures
        r@ == (match opts.accept {
            Some(a) => a@,
            None => "application/json"@,
        }),
{
    match &opts.accept {
        Some(a) => a.clone(),
        None => owned("application/json"),
    }
}

/// ASCII letters lowered, as HTTP header names are compared.
pub open spec fn header_key(s: Seq<char>) -> Seq<char> {
    s.map_values(|c: char| if 'A' <= c && c <= 'Z' { ((c as u32) + 32) as char } else { c })
}

fn header_key_exec(s: &str) -> (r: Vec<char>)
    ensures
        r@ == header_key(s@),
{
    let v = chars_of(s);
    let mut out: Vec<char> = Vec::new();
    let mut i: usize = 0;
    while i < v.len()
        invariant
            i <= v.len(),
            out@ == header_key(v@.take(i as int)),
        decreases v.len() - i,
    {
        let c = v[i];
        if 'A' <= c && c <= 'Z' {
            let b = (c as u32 + 32) as u8;
            out.push(b as char);
        } else {
            out.push(c);
        }
        i = i + 1;
        assert(out@ =~= header_key(v@.take(i as int)));
    }
    assert(v@.take(v.len() as int) =~= v@);
    out
}

/// `headers` with `(name, value)` set: an existing header of the same name
/// (ignoring ASCII case) keeps its place and takes the new value, otherwise
/// the header is added last.
pub open spec fn header_set(headers: Seq<(Seq<char>, Seq<char>)>, name: Seq<char>, value: Seq<char>) -> Seq<
    (Seq<char>, Seq<char>),
> {
    if exists|i: int| 0 <= i < headers.len() && header_key(#[trigger] headers[i].0) == header_key(name) {
        let i = choose|i: int| 0 <= i < headers.len() && header_key(#[trigger] headers[i].0) == header_key(name);
        headers.update(i, (headers[i].0, value))
    } else {
        headers.push((name, value))
    }
}

/// The headers of a request in the order they are applied: the identifying
/// user agent, then the accept header, then the caller's headers, each later
/// one replacing an earlier one of the same name.
pub open spec fn headers_applied(opts: FetchOpts) -> Seq<(Seq<char>, Seq<char>)> {
    let base = seq![("user-agent"@, USER_AGENT@)];
    let with_accept = match opts.accept {
        Some(a) => header_set(base, "accept"@, a@),
        None => base,
    };
    apply_headers(with_accept, header_views(opts.headers@))
}

pub open spec fn apply_headers(start: Seq<(Seq<char>, Seq<char>)>, extra: Seq<(Seq<char>, Seq<char>)>) -> Seq<
    (Seq<char>, Seq<char>),
>
    decreases extra.len(),
{
    if extra.len() == 0 {
        start
    } else {
        header_set(apply_headers(start, extra.drop_last()), extra.last().0, extra.last().1)
    }
}

fn set_header(headers: &mut Vec<(String, String)>, name: &str, value: &str)
    requires
        forall|i: int, j: int|
            0 <= i < j < old(headers)@.len() ==> header_key(#[trigger] old(headers)@[i].0@) != header_key(
                #[trigger] old(headers)@[j].0@,
            ),
    ensures
        header_views(final(headers)@) == header_set(header_views(old(headers)@), name@, value@),
        forall|i: int, j: int|
            0 <= i < j < final(headers)@.len() ==> header_key(#[trigger] final(headers)@[i].0@) != header_key(
                #[trigger] final(headers)@[j].0@,
            ),
{
    let key = header_key_exec(name);
    let ghost hv = header_views(headers@);
    let mut i: usize = 0;
    while i < headers.len()
        invariant
            i <= headers@.len(),
            hv == header_views(headers@),
            headers@ == old(headers)@,
            forall|a: int, b: int|
                0 <= a < b < headers@.len() ==> header_key(#[trigger] headers@[a].0@) != header_key(
                    #[trigger] headers@[b].0@,
                ),
            key@ == header_key(name@),
            forall|k: int| 0 <= k < i ==> header_key(#[trigger] headers@[k].0@) != key@,
        decreases headers.len() - i,
    {
        let k = header_key_exec(headers[i].0.as_str());
        if crate::text::chars_eq(&k, &key) {
            let existing_name = headers[i].0.clone();
            let ghost before = headers@;
            headers.set(i, (existing_name, owned(value)));
            proof {
                assert(hv[i as int].0 == before[i as int].0@);
                assert(header_key(hv[i as int].0) == header_key(name@));
                let j = choose|j: int| 0 <= j < hv.len() && header_key(#[trigger] hv[j].0) == header_key(name@);
                assert(hv[j].0 == before[j].0@);
                if j < i {
                    assert(header_key(before[j].0@) != key@);
                } else if j > i {
                    assert(header_key(before[i as int].0@) != header_key(before[j].0@));
                }
                assert(j == i);
                assert(header_views(headers@) =~= hv.update(i as int, (hv[i as int].0, value@)));
                assert forall|a: int, b: int|
                    0 <= a < b < headers@.len() implies header_key(#[trigger] headers@[a].0@) != header_key(
                        #[trigger] headers@[b].0@,
                    ) by {
                    assert(headers@[a].0@ == before[a].0@);
                    assert(headers@[b].0@ == before[b].0@);
                }
            }
            return;
        }
        i = i + 1;
    }
    let ghost before = headers@;
    headers.push((owned(name), owned(value)));
    proof {
        assert(!exists|j: int| 0 <= j < hv.len() && header_key(#[trigger] hv[j].0) == header_key(name@)) by {
            assert forall|j: int| 0 <= j < hv.len() implies header_key(#[trigger] hv[j].0) != header_key(name@) by {
                assert(hv[j].0 == before[j].0@);
            }
        }
        assert(header_views(headers@) =~= hv.push((name@, value@)));
        assert forall|a: int, b: int|
            0 <= a < b < headers@.len() implies header_key(#[trigger] headers@[a].0@) != header_key(
                #[trigger] headers@[b].0@,
            ) by {
            assert(headers@[a] == before[a]);
            if b < before.len() {
                assert(headers@[b] == before[b]);
            } else {
                assert(headers@[b].0@ == name@);
            }
        }
    }
}

/// The request headers of a polite fetch, later ones replacing earlier ones
/// of the same name, so a caller-supplied user agent wins over the default:
/// no name (ignoring ASCII case) is sent twice.
pub fn request_headers(opts: &FetchOpts) -> (r: Vec<(String, String)>)
    ensures
        header_views(r@) == headers_applied(*opts),
        forall|a: int, b: int|
            0 <= a < b < r@.len() ==> header_key(#[trigger] r@[a].0@) != header_key(#[trigger] r@[b].0@),
{
    let mut headers: Vec<(String, String)> = Vec::new();
    headers.push((owned("user-agent"), owned(USER_AGENT)));
    assert(header_views(headers@) =~= seq![("user-agent"@, USER_AGENT@)]);
    match &opts.accept {
        Some(a) => set_header(&mut headers, "accept", a.as_str()),
        None => {},
    }
    let ghost start = header_views(headers@);
    let ghost extra = header_views(opts.headers@);
    let mut i: usize = 0;
    while i < opts.headers.len()
        invariant
            i <= opts.headers@.len(),
            extra == header_views(opts.headers@),
            header_views(headers@) == apply_headers(start, extra.take(i as int)),
            forall|a: int, b: int|
                0 <= a < b < headers@.len() ==> header_key(#[trigger] headers@[a].0@) != header_key(
                    #[trigger] headers@[b].0@,
                ),
        decreases opts.headers.len() - i,
    {
        let (n, v) = (&opts.headers[i].0, &opts.headers[i].1);
        set_header(&mut headers, n.as_str(), v.as_str());
        proof {
            assert(extra.take(i + 1).drop_last() =~= extra.take(i as int));
            assert(extra.take(i + 1).last() == (n@, v@));
        }
        i = i + 1;
    }
    assert(extra.take(opts.headers.len() as int) =~= extra);
    headers
}

/// The command-line options of a run.
pub struct Options {
    pub store: String,
    pub sources: Vec<String>,
    pub event: String,
    pub rebuild: bool,
}


/// Index of the first argument equal to `a`, or -1.
pub open spec fn arg_index(args: Seq<Seq<char>>, a: Seq<char>) -> int
    decreases args.len(),
{
    if args.len() == 0 {
        -1
    } else if args[0] == a {
        0
    } else {
        let r = arg_index(args.drop_first(), a);
        if r < 0 {
            -1
        } else {
            r + 1
        }
    }
}

/// The value after the first `--flag`, if there is one.
pub open spec fn flag_value(args: Seq<Seq<char>>, flag: Seq<char>) -> Option<Seq<char>> {
    let i = arg_index(args, "--"@ + flag);
    if 0 <= i && i + 1 < args.len() {
        Some(args[i + 1])
    } else {
        None
    }
}

proof fn lemma_arg_index(args: Seq<Seq<char>>, a: Seq<char>, i: int)
    requires
        0 <= i <= args.len(),
        forall|k: int| 0 <= k < i ==> #[trigger] args[k] != a,
    ensures
        i < args.len() && args[i] == a ==> arg_index(args, a) == i,
        i == args.len() ==> arg_index(args, a) == -1,
    decreases i,
{
    if i > 0 {
        let t = args.drop_first();
        assert forall|k: int| 0 <= k < i - 1 implies #[trigger] t[k] != a by {
            assert(t[k] == args[k + 1]);
        }
        if i < args.len() {
            assert(t[i - 1] == args[i]);
        }
        lemma_arg_index(t, a, i - 1);
    }
}

fn flag_value_exec(args: &Vec<String>, flag: &str) -> (r: Option<String>)
    ensures
        match r {
            Some(v) => flag_value(string_views(args@), flag@) == Some(v@),
            None => flag_value(string_views(args@), flag@) is None,
        },
{
    let wanted = concat2("--", flag);
    let ghost av = string_views(args@);
    let mut i: usize = 0;
    while i < args.len()
        invariant
            i <= args@.len(),
            av == string_views(args@),
            wanted@ == "--"@ + flag@,
            forall|k: int| 0 <= k < i ==> #[trigger] av[k] != wanted@,
        decreases args.len() - i,
    {
        if str_eq(args[i].as_str(), wanted.as_str()) {
            proof {
                lemma_arg_index(av, wanted@, i as int);
            }
            if i + 1 < args.len() {
                return Some(args[i + 1].clone());
            } else {
                return None;
            }
        }
        i = i + 1;
    }
    proof {
        lemma_arg_index(av, wanted@, i as int);
    }
    None
}

pub open spec fn trim_all(s: Seq<Seq<char>>) -> Seq<Seq<char>> {
    s.map_values(|p: Seq<char>| trim_seq(p))
}

pub open spec fn trimmed_pieces(s: Seq<char>) -> Seq<Seq<char>> {
    trim_all(split_seq(s, ','))
}

pub open spec fn option_or(v: Option<Seq<char>>, d: Seq<char>) -> Seq<char> {
    match v {
        Some(x) => x,
        None => d,
    }
}

/// The flags of a run: `--store`, `--sources` (comma separated, each
/// trimmed), `--event` and `--rebuild`. A flag with no value after it falls
/// back to its default.
pub fn parse_options(args: &Vec<String>) -> (r: Options)
    ensures
        r.store@ == option_or(flag_value(string_views(args@), "store"@), "local"@),
        string_views(r.sources@) == trimmed_pieces(
            option_or(flag_value(string_views(args@), "sources"@), "wikidata,aec-profiles"@),
        ),
        r.event@ == option_or(flag_value(string_views(args@), "event"@), "31496"@),
        r.rebuild == string_views(args@).contains("--rebuild"@),
{
    let store = match flag_value_exec(args, "store") {
        Some(v) => v,
        None => owned("local"),
    };
    let sources_text = match flag_value_exec(args, "sources") {
        Some(v) => v,
        None => owned("wikidata,aec-profiles"),
    };
    let event = match flag_value_exec(args, "event") {
        Some(v) => v,
        None => owned("31496"),
    };
    let st = chars_of(sources_text.as_str());
    let pieces = split_chars(&st, ',');
    let ghost pv = views_of(pieces@);
    let mut sources: Vec<String> = Vec::new();
    let mut i: usize = 0;
    while i < pieces.len()
        invariant
            i <= pieces@.len(),
            pv == views_of(pieces@),
            sources@.len() == i,
            string_views(sources@) == trim_all(pv.take(i as int)),
        decreases pieces.len() - i,
    {
        let t = trim_chars(&pieces[i]);
        let ts = string_of(&t);
        let ghost before = sources@;
        sources.push(ts);
        proof {
            assert(pv[i as int] == pieces@[i as int]@);
            assert(sources@[i as int]@ == trim_seq(pv[i as int]));
            assert(sources@ == before.push(ts));
            assert forall|k: int| 0 <= k < i + 1 implies string_views(sources@)[k] == trim_all(pv.take(i + 1))[k] by {
                if k < i {
                    assert(sources@[k] == before[k]);
                    assert(string_views(before)[k] == trim_all(pv.take(i as int))[k]);
                }
            }
            assert(string_views(sources@) =~= trim_all(pv.take(i + 1)));
        }
        i = i + 1;
    }
    assert(pv.take(pieces.len() as int) =~= pv);
    let mut rebuild = false;
    let ghost av = string_views(args@);
    let mut k: usize = 0;
    while k < args.len()
        invariant
            k <= args@.len(),
            av == string_views(args@),
            rebuild == av.take(k as int).contains("--rebuild"@),
        decreases args.len() - k,
    {
        if str_eq(args[k].as_str(), "--rebuild") {
            rebuild = true;
        }
        proof {
            assert(av.take(k + 1) =~= av.take(k as int).push(av[k as int]));
            if av.take(k + 1).contains("--rebuild"@) {
                let w = choose|w: int| 0 <= w < k + 1 && #[trigger] av.take(k + 1)[w] == "--rebuild"@;
                if w < k {
                    assert(av.take(k as int)[w] == "--rebuild"@);
                }
            }
            if av.take(k as int).contains("--rebuild"@) {
                let w = choose|w: int| 0 <= w < k && #[trigger] av.take(k as int)[w] == "--rebuild"@;
                assert(av.take(k + 1)[w] == "--rebuild"@);
            }
            if av[k as int] == "--rebuild"@ {
                assert(av.take(k + 1)[k as int] == "--rebuild"@);
            }
        }
        k = k + 1;
    }
    assert(av.take(args.len() as int) =~= av);
    Options { store, sources, event, rebuild }
}

/// Lexicographic order of strings by code point, which is `str`'s byte order.
pub open spec fn text_less(a: Seq<char>, b: Seq<char>) -> bool
    decreases a.len(),
{
    if a.len() == 0 {
        b.len() > 0
    } else if b.len() == 0 {
        false
    } else if a[0] != b[0] {
        a[0] < b[0]
    } else {
        text_less(a.drop_first(), b.drop_first())
    }
}

fn text_less_exec(a: &Vec<char>, b: &Vec<char>) -> (r: bool)
    ensures
        r == text_less(a@, b@),
{
    let mut i: usize = 0;
    assert(a@.skip(0) =~= a@);
    assert(b@.skip(0) =~= b@);
    while i < a.len() && i < b.len() && a[i] == b[i]
        invariant
            i <= a.len(),
            i <= b.len(),
            forall|k: int| 0 <= k < i ==> a@[k] == b@[k],
            text_less(a@, b@) == text_less(a@.skip(i as int), b@.skip(i as int)),
        decreases a.len() - i,
    {
        proof {
            assert(a@.skip(i as int).drop_first() =~= a@.skip(i + 1));
            assert(b@.skip(i as int).drop_first() =~= b@.skip(i + 1));
        }
        i = i + 1;
    }
    proof {
        if i < a.len() && i < b.len() {
            assert(a@.skip(i as int)[0] == a@[i as int]);
            assert(b@.skip(i as int)[0] == b@[i as int]);
        }
    }
    if i == a.len() {
        i < b.len()
    } else if i == b.len() {
        false
    } else {
        a[i] < b[i]
    }
}

/// `a < b` for strings.
pub fn str_less(a: &str, b: &str) -> (r: bool)
    ensures
        r == text_less(a@, b@),
{
    let x = chars_of(a);
    let y = chars_of(b);
    text_less_exec(&x, &y)
}

/// Opening date of the newest parliament in the reference data, given the
/// opening dates that were read; division records begin there. Without the
/// data the cutoff sits in the future, which keeps only sitting members.
pub fn records_begin(opened: Option<Vec<String>>) -> (r: String)
    ensures
        match opened {
            Some(v) if v@.len() > 0 => string_views(v@).contains(r@) && forall|i: int|
                0 <= i < v@.len() ==> !text_less(r@, #[trigger] v@[i]@),
            _ => r@ == "9999-01-01"@,
        },
{
    match opened {
        Some(v) => {
            if v.len() == 0 {
                return owned("9999-01-01");
            }
            let mut best: usize = 0;
            let mut best_chars = chars_of(v[0].as_str());
            let mut i: usize = 1;
            proof {
                lemma_text_irreflexive(best_chars@);
            }
            while i < v.len()
                invariant
                    1 <= i <= v@.len(),
                    best < v@.len(),
                    best_chars@ == v@[best as int]@,
                    forall|k: int| 0 <= k < i ==> !text_less(best_chars@, #[trigger] v@[k]@),
                decreases v.len() - i,
            {
                let c = chars_of(v[i].as_str());
                if !text_less_exec(&c, &best_chars) {
                    proof {
                        lemma_text_total(best_chars@, c@);
                        assert forall|k: int| 0 <= k < i implies !text_less(c@, #[trigger] v@[k]@) by {
                            lemma_text_trans_not(c@, best_chars@, v@[k]@);
                        }
                        lemma_text_irreflexive(c@);
                    }
                    best = i;
                    best_chars = c;
                } else {
                    proof {
                        lemma_text_asym(c@, best_chars@);
                    }
                }
                i = i + 1;
            }
            proof {
                assert(string_views(v@)[best as int] == v@[best as int]@);
            }
            v[best].clone()
        },
        None => owned("9999-01-01"),
    }
}

proof fn lemma_text_irreflexive(a: Seq<char>)
    ensures
        !text_less(a, a),
    decreases a.len(),
{
    if a.len() > 0 {
        lemma_text_irreflexive(a.drop_first());
    }
}

/// Not-below is transitive: `!(a < b)` and `!(b < c)` give `!(a < c)`.
proof fn lemma_text_trans_not(a: Seq<char>, b: Seq<char>, c: Seq<char>)
    requires
        !text_less(a, b),
        !text_less(b, c),
    ensures
        !text_less(a, c),
    decreases a.len(),
{
    if a.len() > 0 && b.len() > 0 && c.len() > 0 && a[0] == b[0] && b[0] == c[0] {
        lemma_text_trans_not(a.drop_first(), b.drop_first(), c.drop_first());
    }
}

/// Exactly one of `a < b`, `b < a`, `a == b`.
proof fn lemma_text_total(a: Seq<char>, b: Seq<char>)
    ensures
        text_less(a, b) || text_less(b, a) || a == b,
    decreases a.len(),
{
    if a.len() > 0 && b.len() > 0 && a[0] == b[0] {
        lemma_text_total(a.drop_first(), b.drop_first());
        if a.drop_first() == b.drop_first() {
            assert(a =~= seq![a[0]] + a.drop_first());
            assert(b =~= seq![b[0]] + b.drop_first());
        }
    } else if a.len() == 0 && b.len() == 0 {
        assert(a =~= b);
    }
}

proof fn lemma_text_asym(a: Seq<char>, b: Seq<char>)
    requires
        text_less(a, b),
    ensures
        !text_less(b, a),
    decreases a.len(),
{
    if a.len() > 0 && b.len() > 0 && a[0] == b[0] {
        lemma_text_asym(a.drop_first(), b.drop_first());
    }
}

/// The development store: the canonical key layout mirrored under a local
/// directory.
pub struct LocalStore {
    pub root: PathBuf,
}

impl LocalStore {
    pub fn new(root: PathBuf) -> (r: Self)
        ensures
            r.root == root,
    {
        LocalStore { root }
    }

    /// `Path::join`: the file a key is stored at.
    #[verifier::external_body]
    pub fn path(&self, key: &str) -> PathBuf {
        self.root.join(key)
    }
}

/// The bucket named by "bucket" or "bucket/prefix" is empty.
#[derive(Debug)]
pub struct BucketError {
    pub input: String,
}

impl BucketError {
    pub fn message(&self) -> (r: String)
        ensures
            r@ == "invalid bucket: "@ + self.input@,
    {
        concat2("invalid bucket: ", self.input.as_str())
    }
}

/// The bucket part of "bucket/prefix": everything before the first slash.
pub open spec fn bucket_part(s: Seq<char>) -> Seq<char> {
    split_seq(s, '/')[0]
}

/// The key prefix of "bucket/prefix": the rest after the first slash with a
/// slash appended, or nothing when there is no rest.
pub open spec fn prefix_part(s: Seq<char>) -> Seq<char> {
    let i = crate::text::first_index(s, '/');
    if i < 0 || i + 1 == s.len() {
        Seq::empty()
    } else {
        s.skip(i + 1) + "/"@
    }
}

/// Splits "bucket" or "bucket/prefix" into the bucket and a key prefix that
/// already ends in a slash. An empty bucket is refused.
pub fn split_bucket(bucket_with_prefix: &str) -> (r: Result<(String, String), BucketError>)
    ensures
        match r {
            Ok((b, p)) => bucket_part(bucket_with_prefix@).len() > 0 && b@ == bucket_part(
                bucket_with_prefix@,
            ) && p@ == prefix_part(bucket_with_prefix@),
            Err(e) => bucket_part(bucket_with_prefix@).len() == 0 && e.input@
                == bucket_with_prefix@,
        },
{
    let s = chars_of(bucket_with_prefix);
    let n = s.len();
    let mut i: usize = 0;
    while i < n && s[i] != '/'
        invariant
            i <= n == s.len(),
            forall|k: int| 0 <= k < i ==> #[trigger] s@[k] != '/',
        decreases n - i,
    {
        i = i + 1;
    }
    proof {
        crate::text::lemma_first_index(s@, '/', i as int);
        crate::text::lemma_first_index_bounds(s@, '/');
        if i == n {
            assert(s@.take(i as int) =~= s@);
        }
    }
    let bucket = crate::text::sub_chars(&s, 0, i);
    if bucket.len() == 0 {
        return Err(BucketError { input: owned(bucket_with_prefix) });
    }
    proof {
        if i < n {
            assert(split_seq(s@, '/')[0] == s@.take(i as int));
        } else {
            assert(split_seq(s@, '/')[0] == s@);
        }
    }
    let prefix = if n - i <= 1 {
        String::new()
    } else {
        let rest = crate::text::sub_chars(&s, i + 1, n);
        let rest_text = string_of(&rest);
        assert(rest@ =~= s@.skip(i + 1));
        concat2(rest_text.as_str(), "/")
    };
    Ok((string_of(&bucket), prefix))
}

/// A bucket setting is accepted exactly when something precedes its first
/// slash; the prefix is then empty or ends in a slash, and the bucket and
/// prefix put back together give the setting (less a trailing slash).
pub proof fn law_bucket_split(s: Seq<char>)
    ensures
        prefix_part(s).len() == 0 || prefix_part(s).last() == '/',
        crate::text::first_index(s, '/') < 0 ==> bucket_part(s) == s && prefix_part(s).len() == 0,
        crate::text::first_index(s, '/') >= 0 && prefix_part(s).len() > 0 ==> bucket_part(s) + "/"@
            + prefix_part(s).drop_last() == s,
{
    reveal_strlit("/");
    crate::text::lemma_first_index_bounds(s, '/');
    let i = crate::text::first_index(s, '/');
    if i >= 0 {
        assert(split_seq(s, '/')[0] == s.take(i));
        if prefix_part(s).len() > 0 {
            assert((s.skip(i + 1) + "/"@).drop_last() =~= s.skip(i + 1));
            assert(s.take(i) + "/"@ + s.skip(i + 1) =~= s);
        }
    } else {
        assert(split_seq(s, '/')[0] == s);
    }
}

/// The content type an object is stored with, from its key's suffix.
pub open spec fn content_type_spec(key: Seq<char>) -> Seq<char> {
    if has_suffix(key, ".json"@) {
        "application/json"@
    } else if has_suffix(key, ".jsonl"@) {
        "application/x-ndjson"@
    } else if has_suffix(key, ".csv"@) {
        "text/csv"@
    } else if has_suffix(key, ".xml"@) {
        "application/xml"@
    } else if has_suffix(key, ".jpg"@) || has_suffix(key, ".jpeg"@) {
        "image/jpeg"@
    } else if has_suffix(key, ".png"@) {
        "image/png"@
    } else {
        "application/octet-stream"@
    }
}

pub fn content_type_for(key: &str) -> (r: &'static str)
    ensures
        r@ == content_type_spec(key@),
{
    if ends_with(key, ".json") {
        "application/json"
    } else if ends_with(key, ".jsonl") {
        "application/x-ndjson"
    } else if ends_with(key, ".csv") {
        "text/csv"
    } else if ends_with(key, ".xml") {
        "application/xml"
    } else if ends_with(key, ".jpg") || ends_with(key, ".jpeg") {
        "image/jpeg"
    } else if ends_with(key, ".png") {
        "image/png"
    } else {
        "application/octet-stream"
    }
}

} // verus!
