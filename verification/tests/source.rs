//! The shard graph of a described stream, and rounds of reading a shard.

use dynamodb_streams_consumer::leader::ShardMeta;
use dynamodb_streams_consumer::lease_table::ThrottleRetry;
use dynamodb_streams_consumer::source::describe::{
    DescribeAction, DescribeRequest, Description, StreamPage,
};
use dynamodb_streams_consumer::source::graph::{
    build_shard_graph, child_metas, page_shards, DdbShard, RawShard,
};
use dynamodb_streams_consumer::source::reader::{
    advanced_after, clamp_max_records, cursor_continues, is_recoverable, is_throttling,
    iterator_request, page_batch, Cursors, IteratorRequest, Page, PageRecord, ReadAction,
    ReadEvent, ReadRound,
};

fn ids_with_parents(metas: &[ShardMeta]) -> Vec<(&str, Vec<&str>)> {
    metas
        .iter()
        .map(|m| (m.id.as_str(), m.parents.iter().map(|p| p.as_str()).collect::<Vec<_>>()))
        .collect()
}

#[test]
fn split_lineage_single_parent() {
    let pages =
        vec![vec![DdbShard::new("shard-0", None), DdbShard::new("shard-1", Some("shard-0"))]];
    let g = build_shard_graph(pages);
    assert_eq!(
        ids_with_parents(&g),
        vec![("shard-0", vec![]), ("shard-1", vec!["shard-0"])]
    );
}

#[test]
fn dedup_across_pages_preserves_first_seen_order() {
    let pages = vec![
        vec![DdbShard::new("a", None), DdbShard::new("b", Some("a"))],
        vec![DdbShard::new("b", Some("a")), DdbShard::new("c", Some("b"))],
    ];
    let g = build_shard_graph(pages);
    assert_eq!(
        ids_with_parents(&g),
        vec![("a", vec![]), ("b", vec!["a"]), ("c", vec!["b"])]
    );
}

#[test]
fn trimmed_parent_is_dropped_so_child_is_not_blocked() {
    let pages = vec![vec![DdbShard::new("shard-9", Some("shard-old-gone"))]];
    let g = build_shard_graph(pages);
    assert_eq!(ids_with_parents(&g), vec![("shard-9", vec![])]);
}

#[test]
fn a_parent_on_a_later_page_is_kept() {
    let pages = vec![vec![DdbShard::new("c", Some("p"))], vec![DdbShard::new("p", None)]];
    let g = build_shard_graph(pages);
    assert_eq!(ids_with_parents(&g), vec![("c", vec!["p"]), ("p", vec![])]);
}

#[test]
fn shards_without_an_id_are_skipped() {
    let raw = vec![
        RawShard { shard_id: None, parent_shard_id: Some("x".into()) },
        RawShard { shard_id: Some("".into()), parent_shard_id: None },
        RawShard { shard_id: Some("s".into()), parent_shard_id: Some("gone".into()) },
    ];
    let page = page_shards(&raw);
    assert_eq!(page, vec![DdbShard::new("s", Some("gone"))]);
    let children = child_metas(&page);
    assert_eq!(
        ids_with_parents(&children),
        vec![("s", vec!["gone"])],
        "a child keeps the parent that was asked about"
    );
}

fn stream_page(shards: &[(&str, Option<&str>)], last: Option<&str>) -> Option<StreamPage> {
    Some(StreamPage {
        shards: shards
            .iter()
            .map(|(id, parent)| RawShard {
                shard_id: Some(id.to_string()),
                parent_shard_id: parent.map(|p| p.to_string()),
            })
            .collect(),
        last_evaluated: last.map(|l| l.to_string()),
    })
}

fn asked(action: DescribeAction) -> DescribeRequest {
    match action {
        DescribeAction::Ask(r) => r,
        DescribeAction::Finish(_) => panic!("the description is over"),
    }
}

fn finished(action: DescribeAction) -> Vec<ShardMeta> {
    match action {
        DescribeAction::Finish(metas) => metas,
        DescribeAction::Ask(r) => panic!("unexpected {r:?}"),
    }
}

#[test]
fn a_stream_is_described_page_by_page() {
    let (mut d, action) = Description::describe_shards();
    let r = asked(action);
    assert_eq!((r.children_of, r.start_after), (None, None));
    let r = asked(d.step(stream_page(&[("c", Some("a")), ("d", Some("gone"))], Some("d"))));
    assert_eq!((r.children_of, r.start_after.as_deref()), (None, Some("d")));
    let g = finished(d.step(stream_page(&[("a", None), ("d", None)], None)));
    // a parent on a later page counts, one on no page was trimmed
    assert_eq!(
        ids_with_parents(&g),
        vec![("c", vec!["a"]), ("d", vec![]), ("a", vec![])]
    );
}

#[test]
fn children_keep_the_parent_that_they_were_asked_for() {
    let (mut d, action) = Description::describe_child_shards("p");
    let r = asked(action);
    assert_eq!((r.children_of.as_deref(), r.start_after), (Some("p"), None));
    let r = asked(d.step(stream_page(&[("x", Some("p"))], Some("x"))));
    assert_eq!((r.children_of.as_deref(), r.start_after.as_deref()), (Some("p"), Some("x")));
    let g = finished(d.step(stream_page(&[("y", Some("p"))], None)));
    assert_eq!(ids_with_parents(&g), vec![("x", vec!["p"]), ("y", vec!["p"])]);
}

#[test]
fn an_empty_answer_ends_a_description() {
    let (mut d, _) = Description::describe_shards();
    assert!(finished(d.step(None)).is_empty());
    let (mut d, _) = Description::describe_shards();
    asked(d.step(stream_page(&[("a", None)], Some("a"))));
    assert_eq!(ids_with_parents(&finished(d.step(None))), vec![("a", vec![])]);
}

#[test]
fn max_records_is_clamped_to_streams_valid_range() {
    assert_eq!(clamp_max_records(500), 500);
    assert_eq!(clamp_max_records(1), 1);
    assert_eq!(clamp_max_records(1000), 1000);
    assert_eq!(clamp_max_records(0), 1);
    assert_eq!(clamp_max_records(-7), 1);
    assert_eq!(clamp_max_records(5000), 1000);
}

#[test]
fn cursor_reused_only_when_it_continues_from_requested_position() {
    assert!(cursor_continues(Some("seq-5"), Some("seq-5")));
    assert!(cursor_continues(None, None));
    assert!(!cursor_continues(Some("seq-5"), Some("seq-9")));
    assert!(!cursor_continues(Some("seq-5"), None));
    assert!(!cursor_continues(None, Some("seq-5")));
}

#[test]
fn cursor_position_advances_to_last_seq_else_holds() {
    assert_eq!(advanced_after(Some("5"), Some("8")).as_deref(), Some("8"));
    assert_eq!(advanced_after(None, Some("1")).as_deref(), Some("1"));
    assert_eq!(advanced_after(Some("5"), None).as_deref(), Some("5"));
    assert_eq!(advanced_after(None, None), None);
}

#[test]
fn recoverable_errors_are_classified() {
    assert!(is_recoverable("ExpiredIteratorException: iterator expired"));
    assert!(is_recoverable("com.amazonaws...TrimmedDataAccessException"));
    assert!(is_recoverable("ResourceNotFoundException"));
    assert!(!is_recoverable("ValidationException: bad input"));
    assert!(!is_recoverable("some other service error"));
}

#[test]
fn throttling_errors_are_classified() {
    assert!(is_throttling("ProvisionedThroughputExceededException"));
    assert!(is_throttling("ThrottlingException: rate exceeded"));
    assert!(is_throttling("RequestLimitExceeded"));
    assert!(is_throttling("LimitExceededException"));
    assert!(!is_throttling("ExpiredIteratorException"));
    assert!(!is_throttling("ValidationException: bad input"));
}

#[test]
fn throttle_retry_retries_throttles_then_passes_through_others() {
    // Throttled twice, then a success: three attempts.
    let mut retry = ThrottleRetry::new(100);
    let mut calls = 0u32;
    let outcome: Result<u8, String> = loop {
        let n = calls;
        calls += 1;
        let result: Result<u8, String> =
            if n < 2 { Err("ThrottlingException".to_string()) } else { Ok(7) };
        let throttled = match &result {
            Err(m) => is_throttling(m),
            Ok(_) => false,
        };
        if retry.after_attempt(throttled).is_none() {
            break result;
        }
    };
    assert_eq!(outcome.unwrap(), 7);
    assert_eq!(calls, 3, "should retry the two throttles then succeed");

    // Another error stands at once.
    let mut retry = ThrottleRetry::new(100);
    assert_eq!(retry.after_attempt(is_throttling("ExpiredIteratorException")), None);
}

// ---- rounds ----

fn record(seq: Option<&str>, created_ms: Option<i64>) -> PageRecord {
    PageRecord {
        has_change: true,
        sequence_number: seq.map(|s| s.to_string()),
        created_ms,
        payload: seq.unwrap_or("").as_bytes().to_vec(),
    }
}

fn page(records: Vec<PageRecord>, next: Option<&str>) -> Page {
    Page { records, next_iterator: next.map(|s| s.to_string()) }
}

fn derived(it: Option<&str>) -> ReadEvent {
    ReadEvent::Derived(it.map(|s| s.to_string()))
}

fn is_derive_from_start(a: &ReadAction) -> bool {
    matches!(a, ReadAction::Derive(IteratorRequest::TrimHorizon))
}

fn reads_with(a: &ReadAction, iterator: &str) -> bool {
    match a {
        ReadAction::GetRecords(it) => it == iterator,
        _ => false,
    }
}

#[test]
fn iterators_are_asked_for_by_checkpoint() {
    assert!(matches!(iterator_request(None), IteratorRequest::TrimHorizon));
    assert!(matches!(iterator_request(Some("LATEST")), IteratorRequest::Latest));
    match iterator_request(Some("42")) {
        IteratorRequest::AfterSequenceNumber(s) => assert_eq!(s, "42"),
        other => panic!("unexpected {other:?}"),
    }
}

#[test]
fn steady_polls_thread_one_iterator() {
    let mut cursors = Cursors::new();
    let (mut round, a) = ReadRound::get_records("s", None, &cursors);
    assert!(is_derive_from_start(&a));
    assert!(reads_with(&round.step(derived(Some("it-1")), &mut cursors, None), "it-1"));
    let p = page(vec![record(Some("1"), None), record(Some("2"), None)], Some("it-2"));
    match round.step(ReadEvent::Read(p), &mut cursors, Some(10)) {
        ReadAction::Finish(b) => {
            let seqs: Vec<&str> = b.records.iter().map(|r| r.seq.as_str()).collect();
            assert_eq!(seqs, vec!["1", "2"]);
            assert_eq!(b.records[1].data, b"2".to_vec());
            assert!(!b.shard_end);
            assert_eq!(b.millis_behind_latest, None);
        }
        _ => panic!("the page finishes the round"),
    }
    assert_eq!(cursors.cached_iterator("s", Some("2")).as_deref(), Some("it-2"));
    assert_eq!(cursors.cached_iterator("s", Some("1")), None);
    assert_eq!(cursors.cached_iterator("t", Some("2")), None);

    // The next poll reads directly; an empty page holds the position.
    let (mut round, a) = ReadRound::get_records("s", Some("2"), &cursors);
    assert!(reads_with(&a, "it-2"));
    round.step(ReadEvent::Read(page(vec![], Some("it-3"))), &mut cursors, None);
    assert_eq!(cursors.cached_iterator("s", Some("2")).as_deref(), Some("it-3"));

    // Repositioning derives afresh.
    let (_, a) = ReadRound::get_records("s", Some("1"), &cursors);
    match a {
        ReadAction::Derive(IteratorRequest::AfterSequenceNumber(s)) => assert_eq!(s, "1"),
        _ => panic!("a fresh iterator is derived"),
    }
}

#[test]
fn the_end_of_a_shard_drops_its_cursor() {
    let mut cursors = Cursors::new();
    cursors.store_cursor("s", None, Some("it".to_string()));
    cursors.store_cursor("t", None, Some("it-t".to_string()));
    let (mut round, _) = ReadRound::get_records("s", None, &cursors);
    match round.step(ReadEvent::Read(page(vec![], None)), &mut cursors, None) {
        ReadAction::Finish(b) => assert!(b.shard_end && b.records.is_empty()),
        _ => panic!("the page finishes the round"),
    }
    assert_eq!(cursors.cached_iterator("s", None), None);
    assert_eq!(cursors.cached_iterator("t", None).as_deref(), Some("it-t"));

    let (mut round, _) = ReadRound::get_records("s", Some("9"), &cursors);
    match round.step(derived(None), &mut cursors, None) {
        ReadAction::Finish(b) => assert!(b.shard_end),
        _ => panic!("a closed shard has no iterator"),
    }
}

#[test]
fn a_trimmed_checkpoint_restarts_at_the_beginning() {
    let mut cursors = Cursors::new();
    let (mut round, _) = ReadRound::get_records("s", Some("9"), &cursors);
    let failed = ReadEvent::DeriveFailed("TrimmedDataAccessException".to_string());
    let a = round.step(failed, &mut cursors, None);
    assert!(is_derive_from_start(&a));
    assert!(reads_with(&round.step(derived(Some("it")), &mut cursors, None), "it"));

    // Without a checkpoint there is nothing to fall back to.
    let (mut round, _) = ReadRound::get_records("s", None, &cursors);
    let failed = ReadEvent::DeriveFailed("TrimmedDataAccessException".to_string());
    match round.step(failed, &mut cursors, None) {
        ReadAction::Fail(m) => assert_eq!(m, "TrimmedDataAccessException"),
        _ => panic!("the failure stands"),
    }
}

#[test]
fn an_expired_iterator_is_replaced_once() {
    let mut cursors = Cursors::new();
    cursors.store_cursor("s", Some("5".to_string()), Some("old".to_string()));
    let (mut round, a) = ReadRound::get_records("s", Some("5"), &cursors);
    assert!(reads_with(&a, "old"));
    let expired = ReadEvent::ReadFailed("ExpiredIteratorException".to_string());
    match round.step(expired, &mut cursors, None) {
        ReadAction::Derive(IteratorRequest::AfterSequenceNumber(s)) => assert_eq!(s, "5"),
        _ => panic!("a fresh iterator is derived"),
    }
    assert_eq!(cursors.cached_iterator("s", Some("5")), None, "the stale one is dropped");
    assert!(reads_with(&round.step(derived(Some("new")), &mut cursors, None), "new"));
    let expired = ReadEvent::ReadFailed("ExpiredIteratorException".to_string());
    match round.step(expired, &mut cursors, None) {
        ReadAction::Fail(m) => assert_eq!(m, "ExpiredIteratorException"),
        _ => panic!("the second failure stands"),
    }
}

#[test]
fn a_shard_that_was_trimmed_while_it_was_read_restarts_at_the_beginning() {
    let trimmed = || "TrimmedDataAccessException".to_string();
    let mut cursors = Cursors::new();
    cursors.store_cursor("s", Some("5".to_string()), Some("old".to_string()));
    let (mut round, _) = ReadRound::get_records("s", Some("5"), &cursors);
    round.step(ReadEvent::ReadFailed(trimmed()), &mut cursors, None);
    let a = round.step(ReadEvent::DeriveFailed(trimmed()), &mut cursors, None);
    assert!(is_derive_from_start(&a));
    assert!(reads_with(&round.step(derived(Some("first")), &mut cursors, None), "first"));
    let page = Page { records: vec![record(Some("7"), None)], next_iterator: Some("n".into()) };
    match round.step(ReadEvent::Read(page), &mut cursors, None) {
        ReadAction::Finish(b) => assert_eq!(b.records[0].seq, "7"),
        _ => panic!("the batch from the beginning"),
    }

    // a shard that is read from its beginning already cannot restart
    let mut cursors = Cursors::new();
    cursors.store_cursor("s", None, Some("old".to_string()));
    let (mut round, _) = ReadRound::get_records("s", None, &cursors);
    round.step(ReadEvent::ReadFailed(trimmed()), &mut cursors, None);
    let a = round.step(ReadEvent::DeriveFailed(trimmed()), &mut cursors, None);
    assert!(matches!(a, ReadAction::Fail(_)));

    // and the second failure at the beginning stands
    let mut cursors = Cursors::new();
    cursors.store_cursor("s", Some("5".to_string()), Some("old".to_string()));
    let (mut round, _) = ReadRound::get_records("s", Some("5"), &cursors);
    round.step(ReadEvent::ReadFailed(trimmed()), &mut cursors, None);
    round.step(ReadEvent::DeriveFailed(trimmed()), &mut cursors, None);
    let a = round.step(ReadEvent::DeriveFailed(trimmed()), &mut cursors, None);
    assert!(matches!(a, ReadAction::Fail(_)));
}

#[test]
fn throttled_reads_wait_longer_and_longer() {
    let mut cursors = Cursors::new();
    cursors.store_cursor("s", None, Some("it".to_string()));
    let (mut round, _) = ReadRound::get_records("s", None, &cursors);
    for wait in [100u64, 200, 400, 800] {
        let throttled = ReadEvent::ReadFailed("ThrottlingException".to_string());
        match round.step(throttled, &mut cursors, None) {
            ReadAction::WaitThenGetRecords(ms, it) => {
                assert_eq!(ms, wait);
                assert_eq!(it, "it");
            }
            _ => panic!("a throttled read is tried again"),
        }
    }
    let throttled = ReadEvent::ReadFailed("ThrottlingException".to_string());
    assert!(matches!(round.step(throttled, &mut cursors, None), ReadAction::Fail(_)));
    assert_eq!(
        cursors.cached_iterator("s", None).as_deref(),
        Some("it"),
        "throttling does not cost the iterator"
    );
}

#[test]
fn pages_become_batches() {
    let mut bare = record(Some("3"), Some(900));
    bare.has_change = false;
    let p = page(
        vec![
            record(Some("1"), Some(500)),
            record(None, Some(800)),
            record(Some(""), Some(800)),
            record(Some("2"), Some(600)),
            record(Some("2b"), None),
            bare,
        ],
        Some("next"),
    );
    let b = page_batch("s", &p, Some(1_000));
    let seqs: Vec<&str> = b.records.iter().map(|r| r.seq.as_str()).collect();
    assert_eq!(seqs, vec!["1", "2", "2b"]);
    assert!(b.records.iter().all(|r| r.shard_id == "s"));
    assert_eq!(b.millis_behind_latest, Some(400), "the newest delivered record counts");
    assert_eq!(page_batch("s", &p, Some(10)).millis_behind_latest, Some(0), "clock skew");
    assert_eq!(page_batch("s", &p, None).millis_behind_latest, Some(0), "no clock");
}
