use indexmap::IndexMap;
use pollywiki::aec::{seat_records, seats_of, AecRow};
use pollywiki::aec_profiles::{after_page_failure, check_electorates};
use pollywiki::config::{next_step, FetchOpts, FetchStep};
use pollywiki::run::count_failure;
use pollywiki::summarise::{division_answers, stored_answer, RunBudget};

fn row(pairs: &[(&str, &str)]) -> AecRow {
    let mut out: IndexMap<String, String> = IndexMap::new();
    for (k, v) in pairs {
        out.insert(k.to_string(), v.to_string());
    }
    out
}

/// Drives a fetch over the given answers the way the fetch loop does:
/// attempts made, and whether it succeeded.
fn fetch_over(opts: &FetchOpts, answers: &[u16]) -> (usize, bool) {
    let mut attempt: u32 = 1;
    for status in answers {
        match next_step(opts, *status, attempt) {
            FetchStep::Done => return (attempt as usize, true),
            FetchStep::Fail => return (attempt as usize, false),
            FetchStep::RetryAfter(_) => attempt += 1,
        }
    }
    (answers.len(), false)
}

#[test]
fn a_fetch_gives_up_after_its_attempts_and_only_retries_transient_errors() {
    let opts = FetchOpts::default();
    assert_eq!(fetch_over(&opts, &[503, 503, 503, 503, 503, 503]), (4, false));
    assert_eq!(fetch_over(&opts, &[429, 502, 200]), (3, true));
    assert_eq!(fetch_over(&opts, &[500, 404, 200]), (2, false));
    let mut once = FetchOpts::default();
    once.max_attempts = Some(1);
    assert_eq!(fetch_over(&once, &[503, 200]), (1, false));
}

#[test]
fn a_sync_counts_one_failure_per_failed_source() {
    let outcomes = [true, false, false, true, false];
    let mut failures: u64 = 0;
    for ok in outcomes {
        if !ok {
            failures = count_failure(failures);
        }
    }
    assert_eq!(failures, 3);
}

/// Runs batches whose calls succeed or fail as given, with the run budget:
/// calls made, and whether the run aborted.
fn batch_run(cap: u32, outcomes: &[bool]) -> (usize, bool) {
    let mut budget = RunBudget::new(cap);
    let mut calls = 0;
    for ok in outcomes {
        if !budget.take_request() {
            return (calls, false);
        }
        calls += 1;
        if !ok && budget.record_failure() {
            return (calls, true);
        }
    }
    (calls, false)
}

#[test]
fn batches_stop_at_the_cap_or_on_the_fifth_failure() {
    assert_eq!(batch_run(3, &[false; 10]), (3, false));
    assert_eq!(batch_run(10, &[false; 10]), (5, true));
    assert_eq!(batch_run(10, &[true, false, true, false, false, false, true, false]), (8, true));
    assert_eq!(batch_run(10, &[true, false, true, false]), (4, false));
    assert_eq!(batch_run(0, &[true]), (0, false));
}

#[test]
fn a_profile_sync_stops_on_the_tenth_failed_page() {
    let mut failed = 0;
    let mut tried = 0;
    let mut stopped = false;
    for ok in [false; 12] {
        tried += 1;
        if !ok {
            let (count, stop) = after_page_failure(failed);
            failed = count;
            if stop {
                stopped = true;
                break;
            }
        }
    }
    assert!(stopped);
    assert_eq!((tried, failed), (10, 10));
}

#[test]
fn the_seats_stop_at_the_first_invalid_state() {
    let rows = vec![
        row(&[("DivisionNm", "Bradfield"), ("StateAb", "NSW")]),
        row(&[("DivisionNm", "Nowhere"), ("StateAb", "XX")]),
        row(&[("DivisionNm", "Melbourne"), ("StateAb", "VIC")]),
    ];
    let seats = seats_of(&rows);
    let mut stored = Vec::new();
    let mut error = None;
    for (name, state) in seats.iter() {
        match seat_records("31496", "2025 Federal Election", name, state, &rows, &[]) {
            Ok((_, result)) => stored.push(result.electorate_slug),
            Err(e) => {
                error = Some(e.message());
                break;
            }
        }
    }
    assert_eq!(stored, vec!["bradfield".to_string()]);
    assert_eq!(error, Some("invalid state code: \"XX\"".to_string()));
}

#[test]
fn a_blank_answer_is_not_stored() {
    let ids = vec!["a".to_string(), "b".to_string()];
    let rows = vec![
        (Some("a".to_string()), Some("   ".to_string())),
        (Some("b".to_string()), Some(" Passed. ".to_string())),
    ];
    let results = division_answers(&ids, &rows);
    assert_eq!(stored_answer(&results, "a"), None);
    assert_eq!(stored_answer(&results, "b"), Some("Passed.".to_string()));
    assert_eq!(stored_answer(&results, "c"), None);
}

#[test]
fn a_profile_sync_needs_electorates() {
    assert!(check_electorates(0).is_err());
    assert_eq!(
        check_electorates(0).unwrap_err().message(),
        "aec-profiles: no electorates in store yet"
    );
    assert!(check_electorates(3).is_ok());
}
