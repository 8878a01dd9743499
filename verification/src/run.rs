//! What a run does: which commands exist, which stages each sets going,
//! which sources a sync reaches, how failures are counted, and where the
//! store lives.

use crate::text::{chars_of, concat2, owned, split_chars, split_seq, str_eq, string_of, trim_chars, trim_seq, views_of};
use crate::text::string_views;
use vstd::prelude::*;

verus! {

pub const USAGE: &'static str = "usage: pollywiki-ingest <sync|summarise|derive|all> [options]
  --store local|s3       default local (.store/); s3 needs POLLYWIKI_DATA_BUCKET
  --sources a,b,c        default wikidata,aec-profiles; also: aph,tvfy,handbook,aec
  --event <ids>          AEC event id(s), comma-separated (default 31496)
  --rebuild              tvfy only: re-normalise from cached raw, no API calls
summarise needs GEMINI_API_KEY; 'all' runs it between sync and derive when set.
";

/// The four commands.
pub open spec fn is_command_spec(c: Seq<char>) -> bool {
    c == "sync"@ || c == "summarise"@ || c == "derive"@ || c == "all"@
}

pub fn is_command(c: &str) -> (r: bool)
    ensures
        r == is_command_spec(c@),
{
    str_eq(c, "sync") || str_eq(c, "summarise") || str_eq(c, "derive") || str_eq(c, "all")
}

/// The stages a command sets going, in run order.
#[derive(Debug, Clone, Copy, PartialEq, Eq, Structural)]
pub struct Stages {
    pub sync: bool,
    pub summarise: bool,
    pub derive: bool,
    /// Whether a failed summarise counts towards the run's failures.
    pub summarise_failure_counts: bool,
}

/// `sync` and `all` sync; `summarise` always summarises and `all` only when
/// a model key is set; `derive` and `all` derive. A summarise failure fails
/// the run only when it was asked for by name: inside `all` the AI layer
/// never blocks record updates.
pub open spec fn stages_spec(c: Seq<char>, model_key_set: bool) -> Stages {
    Stages {
        sync: c == "sync"@ || c == "all"@,
        summarise: c == "summarise"@ || (c == "all"@ && model_key_set),
        derive: c == "derive"@ || c == "all"@,
        summarise_failure_counts: c == "summarise"@,
    }
}

/// Inside `all` the model-written layer is an enhancement: its failure never
/// counts against the run, whether or not a key is set.
pub proof fn law_all_never_fails_on_summaries(model_key_set: bool)
    ensures
        !stages_spec("all"@, model_key_set).summarise_failure_counts,
        stages_spec("all"@, model_key_set).sync,
        stages_spec("all"@, model_key_set).derive,
{
    reveal_strlit("all");
    reveal_strlit("summarise");
    assert("all"@ != "summarise"@) by {
        assert("all"@.len() != "summarise"@.len());
    }
}

pub fn stages(command: &str, model_key_set: bool) -> (r: Stages)
    ensures
        r == stages_spec(command@, model_key_set),
{
    let all = str_eq(command, "all");
    let summarise = str_eq(command, "summarise");
    Stages {
        sync: str_eq(command, "sync") || all,
        summarise: summarise || (all && model_key_set),
        derive: str_eq(command, "derive") || all,
        summarise_failure_counts: summarise,
    }
}


/// Whether the source list names a source.
pub fn has_source(sources: &Vec<String>, name: &str) -> (r: bool)
    ensures
        r == string_views(sources@).contains(name@),
{
    let mut k: usize = 0;
    while k < sources.len()
        invariant
            k <= sources@.len(),
            forall|m: int| 0 <= m < k ==> sources@[m]@ != name@,
        decreases sources@.len() - k,
    {
        if str_eq(sources[k].as_str(), name) {
            assert(string_views(sources@)[k as int] == name@);
            return true;
        }
        k = k + 1;
    }
    proof {
        if string_views(sources@).contains(name@) {
            let m = choose|m: int| 0 <= m < string_views(sources@).len() && string_views(sources@)[m] == name@;
            assert(sources@[m]@ == name@);
        }
    }
    false
}

/// The event ids of `--event`: split at commas, trimmed, empty ones
/// dropped.
pub open spec fn event_ids_spec(event: Seq<char>) -> Seq<Seq<char>> {
    split_seq(event, ',').map_values(|p: Seq<char>| trim_seq(p)).filter(|p: Seq<char>| p.len() > 0)
}

pub fn event_ids(event: &str) -> (r: Vec<String>)
    ensures
        string_views(r@) == event_ids_spec(event@),
{
    let v = chars_of(event);
    let pieces = split_chars(&v, ',');
    let ghost parts = split_seq(event@, ',');
    let ghost trimmed = parts.map_values(|p: Seq<char>| trim_seq(p));
    proof {
        reveal(Seq::filter);
    }
    let mut out: Vec<String> = Vec::new();
    let mut i: usize = 0;
    while i < pieces.len()
        invariant
            i <= pieces@.len(),
            views_of(pieces@) == parts,
            trimmed == parts.map_values(|p: Seq<char>| trim_seq(p)),
            string_views(out@) == trimmed.take(i as int).filter(|p: Seq<char>| p.len() > 0),
        decreases pieces@.len() - i,
    {
        let t = trim_chars(&pieces[i]);
        proof {
            reveal(Seq::filter);
            assert(views_of(pieces@)[i as int] == pieces@[i as int]@);
            assert(t@ == trimmed[i as int]);
            assert(trimmed.take(i + 1).drop_last() =~= trimmed.take(i as int));
            assert(trimmed.take(i + 1).last() == trimmed[i as int]);
        }
        if t.len() > 0 {
            let ghost before = out@;
            out.push(string_of(&t));
            proof {
                assert(string_views(out@) =~= string_views(before).push(t@));
            }
        }
        i = i + 1;
    }
    proof {
        assert(trimmed.take(pieces@.len() as int) =~= trimmed);
    }
    out
}

/// TVFY runs with its API key, or without one when rebuilding from cached
/// payloads.
pub fn tvfy_runs(key_set: bool, rebuild: bool) -> (r: bool)
    ensures
        r == (key_set || rebuild),
{
    key_set || rebuild
}

/// The count after one more failed source, without wrapping.
pub open spec fn counted(failures: u64) -> u64 {
    if failures < u64::MAX {
        (failures + 1) as u64
    } else {
        failures
    }
}

/// How many sources of a run failed (`false` is a failure).
pub open spec fn failed_count(outcomes: Seq<bool>) -> nat
    decreases outcomes.len(),
{
    if outcomes.len() == 0 {
        0
    } else {
        failed_count(outcomes.drop_last()) + if outcomes.last() {
            0nat
        } else {
            1nat
        }
    }
}

/// The count a run reports after the given outcomes, counting each failure
/// as it comes.
pub open spec fn tally(outcomes: Seq<bool>) -> u64
    decreases outcomes.len(),
{
    if outcomes.len() == 0 {
        0
    } else if outcomes.last() {
        tally(outcomes.drop_last())
    } else {
        counted(tally(outcomes.drop_last()))
    }
}

/// Whatever the sources answer, the count a sync reports is the number of
/// sources that failed (held at the largest count a `u64` holds), and it is
/// zero exactly when none failed.
pub proof fn law_failures_are_counted(outcomes: Seq<bool>)
    ensures
        tally(outcomes) == if failed_count(outcomes) <= u64::MAX {
            failed_count(outcomes) as int
        } else {
            u64::MAX as int
        },
        tally(outcomes) == 0 <==> (forall|i: int| 0 <= i < outcomes.len() ==> #[trigger] outcomes[i]),
    decreases outcomes.len(),
{
    if outcomes.len() > 0 {
        let rest = outcomes.drop_last();
        law_failures_are_counted(rest);
        if tally(rest) == 0 {
            assert forall|i: int| 0 <= i < rest.len() implies #[trigger] rest[i] by {}
        }
        assert forall|i: int| 0 <= i < rest.len() implies rest[i] == outcomes[i] by {}
        if !(tally(outcomes) == 0) {
            if outcomes.last() {
                let w = choose|i: int| 0 <= i < rest.len() && !#[trigger] rest[i];
                assert(!outcomes[w]);
            } else {
                assert(!outcomes[outcomes.len() - 1]);
            }
        }
    }
}

/// One more failed source, without wrapping.
pub fn count_failure(failures: u64) -> (r: u64)
    ensures
        r == if failures < u64::MAX { failures + 1 } else { failures as int },
        r == counted(failures),
{
    if failures < u64::MAX {
        failures + 1
    } else {
        failures
    }
}

/// What a run with failures reports.
pub fn failure_report(failures: u64) -> (r: String)
    ensures
        r@ == crate::text::decimal_int(failures as int) + " source(s) failed"@,
{
    let n = crate::text::uint_text(failures);
    concat2(n.as_str(), " source(s) failed")
}

/// Where a run's store lives.
#[derive(Debug, Clone)]
pub enum StoreTarget {
    /// An S3 bucket, optionally "bucket/prefix".
    Bucket(String),
    /// A local directory.
    Directory(String),
}

/// `--store s3` without a bucket setting.
#[derive(Debug, Clone, Copy, PartialEq, Eq, Structural)]
pub enum StoreError {
    BucketUnset,
}

impl StoreError {
    pub fn message(&self) -> (r: String)
        ensures
            r@ == "POLLYWIKI_DATA_BUCKET must be set for --store s3"@,
    {
        owned("POLLYWIKI_DATA_BUCKET must be set for --store s3")
    }
}

/// `s3` asks for the bucket setting and fails without it; anything else is
/// the local directory setting, `.store` by default.
pub fn choose_store(kind: &str, bucket: Option<String>, dir: Option<String>) -> (r: Result<StoreTarget, StoreError>)
    ensures
        kind@ == "s3"@ ==> match bucket {
            Some(b) => r matches Ok(StoreTarget::Bucket(x)) && x == b,
            None => r == Err::<StoreTarget, StoreError>(StoreError::BucketUnset),
        },
        kind@ != "s3"@ ==> match dir {
            Some(d) => r matches Ok(StoreTarget::Directory(x)) && x == d,
            None => r matches Ok(StoreTarget::Directory(x)) && x@ == ".store"@,
        },
{
    if str_eq(kind, "s3") {
        match bucket {
            Some(b) => Ok(StoreTarget::Bucket(b)),
            None => Err(StoreError::BucketUnset),
        }
    } else {
        match dir {
            Some(d) => Ok(StoreTarget::Directory(d)),
            None => Ok(StoreTarget::Directory(owned(".store"))),
        }
    }
}

} // verus!
