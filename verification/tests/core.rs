//! Polling, cleanup, liveness, the shard graph, start positions, metrics, lease
//! keys and balancing.

use std::sync::{Arc, Mutex};

use dynamodb_streams_consumer::backoff::PollBackoff;
use dynamodb_streams_consumer::cleanup::{leases_safe_to_delete, LeaseState};
use dynamodb_streams_consumer::collections::StringMap;
use dynamodb_streams_consumer::coordinator::{
    heartbeat_key, is_heartbeat_key, LeaseCoordinator, RawLease, HEARTBEAT_KEY_PREFIX,
};
use dynamodb_streams_consumer::leader::{shard_metas_from_leases, ShardMeta, LEADER_LEASE_KEY};
use dynamodb_streams_consumer::metrics::{
    noop_sink, MetricsSink, NoopSink, ShardMetrics, SharedMetricsSink,
};
use dynamodb_streams_consumer::multistream::{
    multi_stream_lease_key, parse_lease_key, shard_of, single_stream_lease_key,
};
use dynamodb_streams_consumer::position::{child_seed_checkpoint, InitialPosition, StartPosition};
use dynamodb_streams_consumer::taker::{compute_leases_to_take, LeaseSnapshot};

// ---- polling ----

#[test]
fn catch_up_polls_at_the_throttle_floor() {
    let mut b = PollBackoff::new(250, 1_000, 5_000);
    assert_eq!(b.next_sleep_ms(true), 250);
    assert_eq!(b.next_sleep_ms(true), 250);
}

#[test]
fn idle_backs_off_exponentially_to_the_cap() {
    let mut b = PollBackoff::new(250, 1_000, 5_000);
    assert_eq!(b.next_sleep_ms(false), 1_000);
    assert_eq!(b.next_sleep_ms(false), 2_000);
    assert_eq!(b.next_sleep_ms(false), 4_000);
    assert_eq!(b.next_sleep_ms(false), 5_000, "capped at max");
    assert_eq!(b.next_sleep_ms(false), 5_000, "stays capped");
}

#[test]
fn records_reset_the_idle_backoff() {
    let mut b = PollBackoff::new(250, 1_000, 5_000);
    b.next_sleep_ms(false);
    b.next_sleep_ms(false);
    assert_eq!(b.next_sleep_ms(true), 250);
    assert_eq!(b.next_sleep_ms(false), 1_000, "idle base restored after data");
}

#[test]
fn ddb_defaults_are_sane() {
    let mut b = PollBackoff::ddb_defaults();
    assert_eq!(b.next_sleep_ms(true), 250);
    assert_eq!(b.next_sleep_ms(false), 1_000);
}

#[test]
fn idle_sleep_saturates_at_a_huge_cap() {
    let mut b = PollBackoff::new(0, u64::MAX, u64::MAX);
    assert_eq!(b.next_sleep_ms(false), u64::MAX);
    assert_eq!(b.next_sleep_ms(false), u64::MAX);
}

#[test]
fn the_cap_holds_for_a_base_above_it() {
    let mut b = PollBackoff::new(250, 6_000, 5_000);
    assert_eq!(b.next_sleep_ms(false), 5_000);
    assert_eq!(b.next_sleep_ms(false), 5_000);
    assert_eq!(b.next_sleep_ms(true), 250);
    assert_eq!(b.clone().next_sleep_ms(false), 5_000, "also after records");
}

// ---- cleanup ----

fn meta(id: &str, parents: &[&str]) -> ShardMeta {
    ShardMeta { id: id.into(), parents: parents.iter().map(|p| p.to_string()).collect() }
}

fn st(completed: bool, processing: bool) -> LeaseState {
    LeaseState { completed, processing }
}

fn states(entries: &[(&str, LeaseState)]) -> StringMap<LeaseState> {
    let mut m = StringMap::new();
    for (k, v) in entries {
        m.insert(k.to_string(), *v);
    }
    m
}

#[test]
fn deletes_completed_parent_once_child_processing() {
    let shards = vec![meta("p", &[]), meta("c", &["p"])];
    let state = states(&[("p", st(true, true)), ("c", st(false, true))]);
    assert_eq!(leases_safe_to_delete(&shards, &state), vec!["p"]);
}

#[test]
fn retains_parent_while_child_not_yet_processing() {
    let shards = vec![meta("p", &[]), meta("c", &["p"])];
    let state = states(&[("p", st(true, true)), ("c", st(false, false))]);
    assert!(leases_safe_to_delete(&shards, &state).is_empty());
}

#[test]
fn retains_parent_when_child_lease_missing() {
    let shards = vec![meta("p", &[]), meta("c", &["p"])];
    let state = states(&[("p", st(true, true))]);
    assert!(leases_safe_to_delete(&shards, &state).is_empty());
}

#[test]
fn merge_parents_deletable_once_shared_child_processing() {
    let shards = vec![meta("p1", &[]), meta("p2", &[]), meta("c", &["p1", "p2"])];
    let state =
        states(&[("p1", st(true, true)), ("p2", st(true, true)), ("c", st(false, true))]);
    assert_eq!(leases_safe_to_delete(&shards, &state), vec!["p1", "p2"]);
}

#[test]
fn does_not_delete_incomplete_parent() {
    let shards = vec![meta("p", &[]), meta("c", &["p"])];
    let state = states(&[("p", st(false, true)), ("c", st(false, true))]);
    assert!(leases_safe_to_delete(&shards, &state).is_empty());
}

#[test]
fn retains_completed_leaf_with_no_children() {
    let shards = vec![meta("solo", &[])];
    let state = states(&[("solo", st(true, true))]);
    assert!(leases_safe_to_delete(&shards, &state).is_empty());
}

#[test]
fn the_order_of_the_shards_does_not_matter_for_cleanup() {
    let shards = vec![meta("z", &[]), meta("a", &[]), meta("c", &["z", "a"])];
    let permuted = vec![meta("c", &["z", "a"]), meta("z", &[]), meta("a", &[])];
    let state = states(&[("z", st(true, true)), ("a", st(true, true)), ("c", st(true, false))]);
    assert_eq!(
        leases_safe_to_delete(&shards, &state),
        leases_safe_to_delete(&permuted, &state)
    );
    assert_eq!(leases_safe_to_delete(&permuted, &state), vec!["a", "z"]);
}

#[test]
fn deletable_leases_come_sorted() {
    let shards = vec![meta("z", &[]), meta("a", &[]), meta("c", &["z", "a"])];
    let state = states(&[("z", st(true, true)), ("a", st(true, true)), ("c", st(true, false))]);
    assert_eq!(leases_safe_to_delete(&shards, &state), vec!["a", "z"]);
}

// ---- liveness ----

const DUR: u64 = 1000;

fn row(key: &str, owner: Option<&str>, counter: u64, completed: bool) -> RawLease {
    RawLease {
        lease_key: key.into(),
        owner: owner.map(|o| o.into()),
        lease_counter: counter,
        completed,
        checkpoint: None,
        parents: vec![],
    }
}

fn hb(worker: &str, counter: u64) -> RawLease {
    row(&heartbeat_key(worker), Some(worker), counter, false)
}

fn balanced_with_hb() -> Vec<RawLease> {
    vec![
        row("a", Some("w1"), 1, false),
        row("b", Some("w1"), 1, false),
        row("c", Some("w2"), 5, false),
        row("d", Some("w2"), 5, false),
        hb("w1", 100),
        hb("w2", 200),
    ]
}

#[test]
fn live_worker_keeps_all_shards_even_when_shard_counters_never_move() {
    let mut c = LeaseCoordinator::new("w1", 10, DUR);
    let mut rows = balanced_with_hb();
    assert!(c.tick(&rows, 0).is_empty());
    rows[5] = hb("w2", 201);
    assert!(
        c.tick(&rows, DUR * 5).is_empty(),
        "a heartbeating worker keeps its shards however stale their counters are"
    );
}

#[test]
fn dead_worker_frees_all_its_shards_at_once() {
    let mut c = LeaseCoordinator::new("w1", 10, DUR);
    let rows = balanced_with_hb();
    assert!(c.tick(&rows, 0).is_empty());
    let mut take = c.tick(&rows, DUR + 1);
    take.sort();
    assert_eq!(take, vec!["c", "d"]);
}

#[test]
fn worker_within_duration_not_expired() {
    let mut c = LeaseCoordinator::new("w1", 10, DUR);
    let rows = balanced_with_hb();
    assert!(c.tick(&rows, 0).is_empty());
    assert!(c.tick(&rows, DUR / 2).is_empty());
}

#[test]
fn advancing_heartbeat_resets_liveness() {
    let mut c = LeaseCoordinator::new("w1", 10, DUR);
    c.tick(&balanced_with_hb(), 0);
    let mut advanced = balanced_with_hb();
    advanced[5] = hb("w2", 201);
    assert!(c.tick(&advanced, DUR * 5).is_empty());
    assert!(c.tick(&advanced, DUR * 5 + DUR / 2).is_empty());
}

#[test]
fn expiry_counts_from_the_last_change_over_many_ticks() {
    let mut c = LeaseCoordinator::new("w1", 10, DUR);
    let at = |n: u64| vec![row("a", Some("w2"), 1, false), hb("w2", n)];
    assert!(c.tick(&at(5), 0).is_empty(), "first seen");
    assert!(c.tick(&at(5), DUR).is_empty());
    assert!(c.tick(&at(6), DUR * 2).is_empty(), "its counter changed");
    assert!(c.tick(&at(6), DUR * 3).is_empty(), "one duration since");
    assert_eq!(c.tick(&at(6), DUR * 3 + 1), vec!["a"]);
    assert!(c.tick(&[], DUR * 4).is_empty(), "gone");
    assert!(c.tick(&at(6), DUR * 5).is_empty(), "first seen again");
    assert_eq!(c.tick(&at(6), DUR * 6 + 1), vec!["a"]);
}

#[test]
fn owner_with_no_heartbeat_row_is_reclaimed_after_grace() {
    let mut c = LeaseCoordinator::new("w1", 10, DUR);
    let rows = vec![
        row("a", Some("w1"), 1, false),
        row("b", Some("w1"), 1, false),
        row("c", Some("w2"), 5, false),
        row("d", Some("w2"), 5, false),
        hb("w1", 100),
    ];
    assert!(c.tick(&rows, 0).is_empty());
    let mut take = c.tick(&rows, DUR + 1);
    take.sort();
    assert_eq!(take, vec!["c", "d"], "no-heartbeat owner reclaimed after grace");
}

#[test]
fn heartbeat_rows_are_never_taken() {
    let mut c = LeaseCoordinator::new("w1", 10, DUR);
    let rows = vec![row("a", Some("w1"), 1, false), hb("w2", 5)];
    assert!(c.tick(&rows, 0).is_empty());
    assert!(c.tick(&rows, DUR * 10).is_empty(), "heartbeat row is not a shard");
}

#[test]
fn unowned_taken_immediately() {
    let mut c = LeaseCoordinator::new("w1", 10, DUR);
    let rows = vec![row("a", None, 0, false), row("b", None, 0, false)];
    let mut take = c.tick(&rows, 0);
    take.sort();
    assert_eq!(take, vec!["a", "b"]);
}

#[test]
fn forgets_disappeared_workers() {
    let mut c = LeaseCoordinator::new("w1", 10, DUR);
    c.tick(&[row("x", Some("w2"), 5, false), hb("w2", 1)], 0);
    c.tick(&[], DUR + 1);
    assert!(c
        .tick(&[row("x", Some("w2"), 5, false), hb("w2", 1)], DUR * 100)
        .is_empty());
}

#[test]
fn own_and_unknown_owners_are_not_expired() {
    let mut c = LeaseCoordinator::new("w1", 10, DUR);
    c.tick(&balanced_with_hb(), 0);
    assert!(!c.is_owner_expired(&Some("w1".to_string()), DUR * 9));
    assert!(!c.is_owner_expired(&Some("nobody".to_string()), DUR * 9));
    assert!(!c.is_owner_expired(&None, DUR * 9));
    assert!(!c.is_owner_expired(&Some("w2".to_string()), DUR));
    assert!(c.is_owner_expired(&Some("w2".to_string()), DUR + 1));
}

#[test]
fn heartbeat_keys_are_recognised() {
    let key = heartbeat_key("w1");
    assert_eq!(key, format!("{}w1", HEARTBEAT_KEY_PREFIX));
    assert!(is_heartbeat_key(&key));
    assert!(!is_heartbeat_key("shardId-1"));
    assert!(!is_heartbeat_key(""));
}

// ---- the shard graph ----

fn lease(key: &str, parents: &[&str]) -> RawLease {
    RawLease {
        lease_key: key.into(),
        owner: None,
        lease_counter: 0,
        completed: false,
        checkpoint: None,
        parents: parents.iter().map(|p| p.to_string()).collect(),
    }
}

#[test]
fn reconstructs_graph_and_skips_leader_sentinel() {
    let rows = vec![
        lease(LEADER_LEASE_KEY, &[]),
        lease("shard-0", &[]),
        lease("shard-1", &["shard-0"]),
    ];
    let metas = shard_metas_from_leases(&rows);
    let ids: Vec<&str> = metas.iter().map(|m| m.id.as_str()).collect();
    assert_eq!(ids, vec!["shard-0", "shard-1"], "sentinel excluded");
    let child = metas.iter().find(|m| m.id == "shard-1").unwrap();
    assert_eq!(child.parents, vec!["shard-0"], "parents carried on the lease");
}

#[test]
fn merge_child_carries_both_parents() {
    let rows = vec![lease("p-a", &[]), lease("p-b", &[]), lease("child", &["p-a", "p-b"])];
    let child =
        shard_metas_from_leases(&rows).into_iter().find(|m| m.id == "child").unwrap();
    assert_eq!(child.parents, vec!["p-a", "p-b"]);
}

#[test]
fn empty_table_yields_no_shards() {
    assert!(shard_metas_from_leases(&[]).is_empty());
}

#[test]
fn heartbeat_rows_are_no_shards() {
    let rows = vec![hb("w1", 3), lease("s", &[])];
    let ids: Vec<String> = shard_metas_from_leases(&rows).into_iter().map(|m| m.id).collect();
    assert_eq!(ids, vec!["s"]);
}

// ---- start positions ----

#[test]
fn default_is_trim_horizon() {
    assert_eq!(InitialPosition::default(), InitialPosition::TrimHorizon);
    assert_eq!(InitialPosition::TrimHorizon.seed_checkpoint(), None);
}

#[test]
fn latest_seeds_and_decodes_via_sentinel() {
    let cp = InitialPosition::Latest.seed_checkpoint();
    assert_eq!(cp.as_deref(), Some("LATEST"));
    assert_eq!(StartPosition::from_checkpoint(cp.as_deref()), StartPosition::Latest);
}

#[test]
fn none_and_real_seq_decode_correctly() {
    assert_eq!(StartPosition::from_checkpoint(None), StartPosition::TrimHorizon);
    let seq = "100000000000000000000000001";
    assert_eq!(
        StartPosition::from_checkpoint(Some(seq)),
        StartPosition::After(seq.to_string())
    );
}

#[test]
fn parse_is_case_insensitive_and_rejects_unknown() {
    assert_eq!(InitialPosition::parse("latest"), Some(InitialPosition::Latest));
    assert_eq!(InitialPosition::parse("  TRIM_HORIZON "), Some(InitialPosition::TrimHorizon));
    assert_eq!(InitialPosition::parse("tip"), None);
}

#[test]
fn root_shard_has_no_parents_to_inherit_from() {
    assert_eq!(child_seed_checkpoint(&[]), None);
}

#[test]
fn child_starts_at_beginning_when_parent_processed_records() {
    let parent = vec![Some("100000000000000000000000009".to_string())];
    assert_eq!(child_seed_checkpoint(&parent), None);
}

#[test]
fn child_starts_at_beginning_under_default_trim_horizon() {
    assert_eq!(child_seed_checkpoint(&[None]), None);
}

#[test]
fn child_inherits_start_mode_when_parent_completed_without_records() {
    let parent = vec![Some("LATEST".to_string())];
    assert_eq!(child_seed_checkpoint(&parent).as_deref(), Some("LATEST"));
}

#[test]
fn merge_child_inherits_only_when_all_parents_agree() {
    let both = vec![Some("LATEST".to_string()), Some("LATEST".to_string())];
    assert_eq!(child_seed_checkpoint(&both).as_deref(), Some("LATEST"));
    let mixed = vec![
        Some("LATEST".to_string()),
        Some("100000000000000000000000009".to_string()),
    ];
    assert_eq!(child_seed_checkpoint(&mixed), None);
}

#[test]
fn positions_survive_their_checkpoint() {
    for p in [
        StartPosition::TrimHorizon,
        StartPosition::Latest,
        StartPosition::After("77".to_string()),
    ] {
        assert_eq!(StartPosition::from_checkpoint(p.as_checkpoint().as_deref()), p);
    }
    assert!(StartPosition::TrimHorizon.is_start_mode());
    assert!(StartPosition::Latest.is_start_mode());
    assert!(!StartPosition::After("77".to_string()).is_start_mode());
    assert_eq!(StartPosition::from(InitialPosition::Latest), StartPosition::Latest);
    assert_eq!(InitialPosition::parse("trim-horizon"), Some(InitialPosition::TrimHorizon));
    assert_eq!(InitialPosition::parse("TrimHorizon\t"), Some(InitialPosition::TrimHorizon));
    assert_eq!(InitialPosition::parse(""), None);
}

// ---- metrics ----

type CapturedBatch = (String, u64, u64, Option<i64>);

#[derive(Default)]
struct Capture {
    batches: Mutex<Vec<CapturedBatch>>,
    describes: Mutex<u64>,
}

impl MetricsSink for Capture {
    fn on_batch(&self, m: &ShardMetrics<'_>) {
        self.batches.lock().unwrap().push((
            m.shard_id.to_string(),
            m.records,
            m.bytes,
            m.millis_behind_latest,
        ));
    }
    fn on_describe_stream(&self) {
        *self.describes.lock().unwrap() += 1;
    }
}

#[test]
fn sink_receives_batch_and_lag() {
    let c = Capture::default();
    c.on_batch(&ShardMetrics {
        shard_id: "s0",
        records: 3,
        bytes: 120,
        millis_behind_latest: Some(450),
    });
    c.on_describe_stream();
    let b = c.batches.lock().unwrap();
    assert_eq!(b.len(), 1);
    assert_eq!(b[0], ("s0".to_string(), 3, 120, Some(450)));
    assert_eq!(*c.describes.lock().unwrap(), 1);
}

#[test]
fn noop_sink_is_inert() {
    let s = NoopSink;
    s.on_batch(&ShardMetrics {
        shard_id: "s",
        records: 1,
        bytes: 1,
        millis_behind_latest: Some(0),
    });
    s.on_shard_end("s");
    s.on_describe_stream();
    s.on_lease_acquired("s");
    s.on_lease_lost("s");
    s.on_leases_held(3);
    s.on_processing_slot_wait("s", 12);
    s.on_max_processing_concurrency(4);
}

#[derive(Default)]
struct LeaseCapture {
    acquired: Mutex<Vec<String>>,
    lost: Mutex<Vec<String>>,
    held: Mutex<Vec<u64>>,
}

impl MetricsSink for LeaseCapture {
    fn on_lease_acquired(&self, s: &str) {
        self.acquired.lock().unwrap().push(s.to_string());
    }
    fn on_lease_lost(&self, s: &str) {
        self.lost.lock().unwrap().push(s.to_string());
    }
    fn on_leases_held(&self, n: u64) {
        self.held.lock().unwrap().push(n);
    }
}

#[test]
fn sink_receives_lease_lifecycle_events() {
    let c = LeaseCapture::default();
    c.on_lease_acquired("s0");
    c.on_lease_lost("s0");
    c.on_leases_held(2);
    assert_eq!(*c.acquired.lock().unwrap(), vec!["s0".to_string()]);
    assert_eq!(*c.lost.lock().unwrap(), vec!["s0".to_string()]);
    assert_eq!(*c.held.lock().unwrap(), vec![2]);
}

#[test]
fn sinks_can_be_shared() {
    let sink: SharedMetricsSink = noop_sink();
    sink.on_leases_held(1);
    let capture = Arc::new(LeaseCapture::default());
    let shared: SharedMetricsSink = capture.clone();
    shared.on_leases_held(4);
    assert_eq!(*capture.held.lock().unwrap(), vec![4]);
}

// ---- lease keys ----

#[test]
fn round_trips_a_plain_stream_name() {
    let key = multi_stream_lease_key("orders-stream", "shardId-000001-abcd");
    assert_eq!(key, "orders-stream:shardId-000001-abcd");
    assert_eq!(parse_lease_key(&key), Some(("orders-stream", "shardId-000001-abcd")));
    assert_eq!(shard_of(&key), "shardId-000001-abcd");
}

#[test]
fn round_trips_a_stream_arn_with_embedded_colons() {
    let arn =
        "arn:aws:dynamodb:us-east-1:123456789012:table/Orders/stream/2026-07-01T21:52:30.123";
    let shard = "shardId-00000001600000000000-a1b2c3d4";
    let key = multi_stream_lease_key(arn, shard);
    let (stream, got_shard) = parse_lease_key(&key).unwrap();
    assert_eq!(stream, arn, "the full ARN (with its colons) is recovered");
    assert_eq!(got_shard, shard);
    assert_eq!(shard_of(&key), shard);
}

#[test]
fn single_stream_key_is_the_bare_shard() {
    let key = single_stream_lease_key("shardId-000001-abcd");
    assert_eq!(key, "shardId-000001-abcd");
    assert_eq!(parse_lease_key(&key), None);
    assert_eq!(shard_of(&key), "shardId-000001-abcd");
}

#[test]
fn distinct_streams_do_not_collide_on_same_shard_id() {
    let shard = "shardId-000001";
    let a = multi_stream_lease_key("stream-A", shard);
    let b = multi_stream_lease_key("stream-B", shard);
    assert_ne!(a, b, "same shard id under different streams yields distinct keys");
}

#[test]
fn keys_may_hold_any_characters_before_the_colon() {
    let key = multi_stream_lease_key("str\u{f6}m-\u{1F600}", "s");
    assert_eq!(parse_lease_key(&key), Some(("str\u{f6}m-\u{1F600}", "s")));
    assert_eq!(parse_lease_key(":"), Some(("", "")));
}

// ---- balancing ----

fn snap(key: &str, owner: Option<&str>, expired: bool, completed: bool) -> LeaseSnapshot {
    LeaseSnapshot {
        lease_key: key.into(),
        owner: owner.map(|o| o.into()),
        expired,
        completed,
    }
}

#[test]
fn takes_unowned_up_to_fair_share() {
    let leases = vec![snap("a", None, false, false), snap("b", None, false, false)];
    let take = compute_leases_to_take(&leases, "w1", 10);
    assert_eq!(take, vec!["a", "b"]);
}

#[test]
fn takes_expired_lease_from_dead_worker() {
    let leases = vec![snap("a", Some("w1"), false, false), snap("b", Some("w2"), true, false)];
    let take = compute_leases_to_take(&leases, "w1", 10);
    assert_eq!(take, vec!["b"]);
}

#[test]
fn steals_from_most_loaded_when_no_available() {
    let leases = vec![
        snap("a", Some("w1"), false, false),
        snap("b", Some("w2"), false, false),
        snap("c", Some("w2"), false, false),
        snap("d", Some("w2"), false, false),
    ];
    let take = compute_leases_to_take(&leases, "w1", 10);
    assert_eq!(take.len(), 1);
    assert!(["b", "c", "d"].contains(&take[0].as_str()));
}

#[test]
fn balanced_takes_nothing() {
    let leases = vec![
        snap("a", Some("w1"), false, false),
        snap("b", Some("w1"), false, false),
        snap("c", Some("w2"), false, false),
        snap("d", Some("w2"), false, false),
    ];
    assert!(compute_leases_to_take(&leases, "w1", 10).is_empty());
}

#[test]
fn respects_max_cap() {
    let leases = vec![
        snap("a", None, false, false),
        snap("b", None, false, false),
        snap("c", None, false, false),
    ];
    let take = compute_leases_to_take(&leases, "w1", 2);
    assert_eq!(take.len(), 2);
}

#[test]
fn skips_completed_leases() {
    let leases = vec![snap("a", None, false, true), snap("b", None, false, false)];
    let take = compute_leases_to_take(&leases, "w1", 10);
    assert_eq!(take, vec!["b"]);
}

#[test]
fn does_not_steal_from_worker_at_target() {
    let leases = vec![
        snap("a", Some("w1"), false, false),
        snap("b", Some("w2"), false, false),
        snap("c", Some("w2"), false, false),
    ];
    assert!(compute_leases_to_take(&leases, "w1", 10).is_empty());
}

#[test]
fn sole_worker_takes_everything_in_key_order() {
    let leases = vec![
        snap("c", Some("dead"), true, false),
        snap("a", None, false, false),
        snap("b", Some("w1"), false, false),
    ];
    assert_eq!(compute_leases_to_take(&leases, "w1", 10), vec!["a", "c"]);
    assert!(compute_leases_to_take(&[], "w1", 10).is_empty());
    assert!(compute_leases_to_take(&leases, "w1", 0).is_empty());
}

#[test]
fn equally_loaded_victims_are_chosen_by_name() {
    let mut leases = vec![];
    for (owner, keys) in [("w3", ["a", "b", "c", "d"]), ("w2", ["e", "f", "g", "h"])] {
        for k in keys {
            leases.push(snap(k, Some(owner), false, false));
        }
    }
    assert_eq!(compute_leases_to_take(&leases, "w1", 10), vec!["e"]);
    leases.reverse();
    assert_eq!(compute_leases_to_take(&leases, "w1", 10), vec!["e"]);
}

#[test]
fn the_order_of_the_table_does_not_matter_for_balancing() {
    let leases = vec![
        snap("d", Some("w2"), false, false),
        snap("a", Some("w2"), false, false),
        snap("c", Some("w3"), false, false),
        snap("b", Some("w3"), false, false),
        snap("e", None, false, false),
        snap("f", Some("w2"), false, false),
        snap("g", Some("w3"), false, false),
    ];
    let mut permuted = leases.clone();
    permuted.reverse();
    let take = compute_leases_to_take(&leases, "w1", 10);
    assert_eq!(take, compute_leases_to_take(&permuted, "w1", 10));
    assert_eq!(take, vec!["e"], "nobody holds more than the fair share");
    permuted.retain(|l| l.owner.as_deref() != Some("w3"));
    assert_eq!(compute_leases_to_take(&permuted, "w1", 10), vec!["e", "a"]);
}
