use pollywiki::run::{
    choose_store, count_failure, event_ids, failure_report, has_source, is_command, stages,
    tvfy_runs, StoreError, StoreTarget, USAGE,
};

#[test]
fn only_the_four_commands_are_accepted() {
    for c in ["sync", "summarise", "derive", "all"] {
        assert!(is_command(c), "{c}");
    }
    assert!(!is_command("sink"));
    assert!(!is_command(""));
    assert!(USAGE.starts_with("usage: pollywiki-ingest"));
}

#[test]
fn each_command_sets_its_own_stages_going() {
    let sync = stages("sync", true);
    assert!(sync.sync && !sync.summarise && !sync.derive);
    let derive = stages("derive", true);
    assert!(!derive.sync && !derive.summarise && derive.derive);
    // `all` summarises only with a model key, and a summarise failure there
    // never fails the run.
    let all_keyed = stages("all", true);
    assert!(all_keyed.sync && all_keyed.summarise && all_keyed.derive);
    assert!(!all_keyed.summarise_failure_counts);
    let all_bare = stages("all", false);
    assert!(all_bare.sync && !all_bare.summarise && all_bare.derive);
    // Asked for by name, summarise runs and its failure counts.
    let summarise = stages("summarise", false);
    assert!(summarise.summarise && summarise.summarise_failure_counts);
}

#[test]
fn sources_and_events_are_read_from_the_lists() {
    let sources = vec!["aph".to_string(), "tvfy".to_string()];
    assert!(has_source(&sources, "tvfy"));
    assert!(!has_source(&sources, "aec"));
    assert_eq!(event_ids("31496, 31633 ,,"), vec!["31496", "31633"]);
    assert!(event_ids("").is_empty());
}

#[test]
fn tvfy_needs_a_key_unless_rebuilding() {
    assert!(!tvfy_runs(false, false));
    assert!(tvfy_runs(true, false));
    assert!(tvfy_runs(false, true));
}

#[test]
fn failures_are_counted_and_reported() {
    assert_eq!(count_failure(0), 1);
    assert_eq!(count_failure(u64::MAX), u64::MAX);
    assert_eq!(failure_report(2), "2 source(s) failed");
}

#[test]
fn the_store_is_a_local_directory_unless_s3_is_asked_for() {
    match choose_store("local", None, None) {
        Ok(StoreTarget::Directory(d)) => assert_eq!(d, ".store"),
        other => panic!("unexpected {other:?}"),
    }
    match choose_store("local", None, Some("/tmp/x".to_string())) {
        Ok(StoreTarget::Directory(d)) => assert_eq!(d, "/tmp/x"),
        other => panic!("unexpected {other:?}"),
    }
    match choose_store("s3", Some("pollywiki.au/data".to_string()), None) {
        Ok(StoreTarget::Bucket(b)) => assert_eq!(b, "pollywiki.au/data"),
        other => panic!("unexpected {other:?}"),
    }
    let err = choose_store("s3", None, None).unwrap_err();
    assert_eq!(err, StoreError::BucketUnset);
    assert_eq!(err.message(), "POLLYWIKI_DATA_BUCKET must be set for --store s3");
}
