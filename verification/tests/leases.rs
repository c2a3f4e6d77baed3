//! The lease table: its rows, its conditional writes, and its setup.

use std::collections::HashMap;

use dynamodb_streams_consumer::lease_scan::{ScanAction, ScanPage, TableScan};
use dynamodb_streams_consumer::lease_table::{
    classify, is_condition_failure, single_stream_lease_key, Change, Condition, Lease,
    LeaseBilling, LeaseError, LeaseTableConfig, LeaseWrite, ThrottleRetry,
};
use dynamodb_streams_consumer::lease_wire::{
    heartbeat_counter, item_to_lease, leadership_counter, leadership_failure,
    publication_failure, row_key, Acquire, AcquireAction, AcquireEvent,
};
use dynamodb_streams_consumer::record::{AttrValue, Item};
use dynamodb_streams_consumer::table_setup::{SetupAction, SetupEvent, TableSetup};

const CONDITIONAL_CHECK_FAILED: &str = "ConditionalCheckFailedException";

const THROTTLE_CODES: [&str; 4] = [
    "ProvisionedThroughputExceededException",
    "ThrottlingException",
    "RequestLimitExceeded",
    "LimitExceededException",
];

#[test]
fn single_stream_lease_key_is_shard_id() {
    assert_eq!(single_stream_lease_key("shardId-42"), "shardId-42");
}

#[test]
fn unowned_lease_is_takeable() {
    let l = Lease {
        lease_key: "s".into(),
        lease_owner: None,
        lease_counter: 7,
        ..Default::default()
    };
    assert!(l.is_takeable(7));
    assert!(l.is_takeable(0));
}

#[test]
fn owned_lease_takeable_only_if_counter_stalled() {
    let l = Lease {
        lease_key: "s".into(),
        lease_owner: Some("w1".into()),
        lease_counter: 5,
        ..Default::default()
    };
    assert!(l.is_takeable(5));
    assert!(!l.is_takeable(4));
}

#[test]
fn classify_maps_conditional_throttle_and_other() {
    assert!(matches!(classify(Some(CONDITIONAL_CHECK_FAILED), "m"), LeaseError::Lost));
    for c in THROTTLE_CODES {
        assert!(
            matches!(classify(Some(c), "m"), LeaseError::Throttled(_)),
            "code {c} should classify as Throttled"
        );
    }
    assert!(matches!(classify(Some("ValidationException"), "m"), LeaseError::Aws(_)));
    assert!(matches!(classify(None, "m"), LeaseError::Aws(_)));
}

/// Run an operation as long as it is throttled and may be tried again.
fn with_throttle_retry(
    mut op: impl FnMut() -> Result<u32, LeaseError>,
) -> Result<u32, LeaseError> {
    let mut retry = ThrottleRetry::for_leases();
    loop {
        let result = op();
        let throttled = matches!(result, Err(LeaseError::Throttled(_)));
        if retry.after_attempt(throttled).is_none() {
            return result;
        }
    }
}

#[test]
fn throttle_retry_succeeds_after_transient_throttles() {
    let mut calls = 0;
    let out = with_throttle_retry(|| {
        calls += 1;
        if calls < 3 {
            Err(LeaseError::Throttled("throttled".into()))
        } else {
            Ok(42)
        }
    });
    assert_eq!(out.unwrap(), 42);
    assert_eq!(calls, 3, "retried through the transient throttles");
}

#[test]
fn throttle_retry_does_not_retry_lost() {
    let mut calls = 0;
    let out = with_throttle_retry(|| {
        calls += 1;
        Err(LeaseError::Lost)
    });
    assert!(matches!(out, Err(LeaseError::Lost)));
    assert_eq!(calls, 1, "a lost lease must never be retried as throttling");
}

#[test]
fn throttle_retry_gives_up_after_max_attempts() {
    let mut calls = 0;
    let out = with_throttle_retry(|| {
        calls += 1;
        Err(LeaseError::Throttled("throttled".into()))
    });
    assert!(matches!(out, Err(LeaseError::Throttled(_))));
    assert_eq!(calls, 5, "bounded at 5 attempts");
}

#[test]
fn retry_delays_double_up_to_the_cap() {
    let mut r = ThrottleRetry::for_leases();
    let delays: Vec<Option<u64>> = (0..5).map(|_| r.after_attempt(true)).collect();
    assert_eq!(delays, vec![Some(50), Some(100), Some(200), Some(400), None]);
}

#[test]
fn errors_have_words() {
    assert_eq!(LeaseError::Lost.to_text(), "lease lost (conditional check failed)");
    assert_eq!(LeaseError::Throttled("slow".into()).to_text(), "throttled: slow");
    assert_eq!(LeaseError::Aws("no".into()).to_text(), "aws error: no");
}

// ---- rows ----

fn wire_item() -> Item {
    let mut m = Item::new();
    m.insert("leaseKey".into(), AttrValue::S("shard-1".into()));
    m.insert("leaseOwner".into(), AttrValue::S("w1".into()));
    m.insert("leaseCounter".into(), AttrValue::N("17".into()));
    m.insert("checkpoint".into(), AttrValue::S("100".into()));
    m.insert("completed".into(), AttrValue::Bool(true));
    m.insert(
        "parentShardIds".into(),
        AttrValue::L(vec![AttrValue::S("p".into()), AttrValue::Null, AttrValue::S("q".into())]),
    );
    m
}

#[test]
fn rows_are_read() {
    let l = item_to_lease(&wire_item());
    assert_eq!(
        l,
        Lease {
            lease_key: "shard-1".into(),
            lease_owner: Some("w1".into()),
            lease_counter: 17,
            checkpoint: Some("100".into()),
            completed: true,
            parents: vec!["p".into(), "q".into()],
        }
    );
}

#[test]
fn missing_and_mistyped_attributes_have_defaults() {
    assert_eq!(item_to_lease(&Item::new()), Lease::default());
    let mut m = Item::new();
    m.insert("leaseKey".into(), AttrValue::N("1".into()));
    m.insert("leaseCounter".into(), AttrValue::N("-3".into()));
    m.insert("completed".into(), AttrValue::S("true".into()));
    m.insert("parentShardIds".into(), AttrValue::Ss(vec!["p".into()]));
    assert_eq!(item_to_lease(&m), Lease::default());
}

#[test]
fn a_new_lease_reads_back() {
    let w = LeaseWrite::create_shard_lease("c", &vec!["p".into()], &Some("LATEST".into()));
    let item = w.new_item().unwrap();
    assert_eq!(
        item_to_lease(&item),
        Lease {
            lease_key: "c".into(),
            checkpoint: Some("LATEST".into()),
            parents: vec!["p".into()],
            ..Default::default()
        }
    );
    let w = LeaseWrite::create("s", "w1");
    assert_eq!(
        item_to_lease(&w.new_item().unwrap()),
        Lease {
            lease_key: "s".into(),
            lease_owner: Some("w1".into()),
            lease_counter: 1,
            ..Default::default()
        }
    );
}

#[test]
fn writes_have_their_expressions() {
    let w = LeaseWrite::checkpoint("s", "w1", 4, "100");
    assert_eq!(w.condition_expression(), Some("leaseCounter = :c AND leaseOwner = :o"));
    assert_eq!(
        w.update_expression(),
        Some("SET checkpoint = :cp, leaseCounter = leaseCounter + :one")
    );
    let v = w.expression_values();
    assert_eq!(v.get(":c"), Some(&AttrValue::N("4".into())));
    assert_eq!(v.get(":o"), Some(&AttrValue::S("w1".into())));
    assert_eq!(v.get(":cp"), Some(&AttrValue::S("100".into())));
    assert_eq!(v.get(":one"), Some(&AttrValue::N("1".into())));
    assert_eq!(v.len(), 4);
    assert_eq!(LeaseWrite::heartbeat("w").condition_expression(), None);
    assert_eq!(
        LeaseWrite::delete_lease("s").condition_expression(),
        Some("attribute_exists(leaseKey) AND completed = :t")
    );
    assert_eq!(LeaseWrite::delete_lease("s").update_expression(), None);
    assert!(LeaseWrite::renew("s", "w1", 1).new_item().is_none());
}

// ---- a table in memory ----

#[derive(Default)]
struct Table {
    rows: HashMap<String, Lease>,
}

impl Table {
    fn apply(&mut self, w: &LeaseWrite) -> bool {
        let row = self.rows.get(&w.key).cloned();
        let meets = match (&w.condition, &row) {
            (Condition::Absent, r) => r.is_none(),
            (Condition::CounterIs(c), Some(r)) => r.lease_counter == *c,
            (Condition::HeldBy(c, o), Some(r)) => {
                r.lease_counter == *c && r.lease_owner.as_ref() == Some(o)
            }
            (Condition::Completed, Some(r)) => r.completed,
            (Condition::Always, _) => true,
            _ => false,
        };
        if !meets {
            return false;
        }
        let mut r = row.unwrap_or(Lease { lease_key: w.key.clone(), ..Default::default() });
        match &w.change {
            Change::Create(o, c, cp, p) => {
                r.lease_owner = o.clone();
                r.lease_counter = *c;
                r.checkpoint = cp.clone();
                r.parents = p.clone();
            }
            Change::Take(o) | Change::Beat(o) => {
                r.lease_owner = Some(o.clone());
                r.lease_counter += 1;
            }
            Change::Renew => r.lease_counter += 1,
            Change::SaveCheckpoint(s) => {
                r.checkpoint = Some(s.clone());
                r.lease_counter += 1;
            }
            Change::Complete => r.completed = true,
            Change::Release => {
                r.lease_owner = None;
                r.lease_counter += 1;
            }
            Change::Delete => {
                self.rows.remove(&w.key);
                return true;
            }
        }
        self.rows.insert(w.key.clone(), r);
        true
    }

    fn acquire(&mut self, key: &str, owner: &str) -> Result<Lease, LeaseError> {
        let (mut machine, mut action) = Acquire::start(key, owner);
        loop {
            let event = match action {
                AcquireAction::Write(w) => {
                    if self.apply(&w) {
                        AcquireEvent::Written
                    } else {
                        AcquireEvent::WriteFailed(
                            Some(CONDITIONAL_CHECK_FAILED.to_string()),
                            "condition".to_string(),
                        )
                    }
                }
                AcquireAction::Read(k) => AcquireEvent::Read(self.rows.get(&k).cloned()),
                AcquireAction::Finish(r) => return r,
            };
            action = machine.step(event);
        }
    }
}

#[test]
fn one_writer_wins() {
    let mut t = Table::default();
    t.apply(&LeaseWrite::create_shard_lease("s", &vec![], &None));
    assert!(t.apply(&LeaseWrite::claim("s", "w1", 0)));
    assert!(!t.apply(&LeaseWrite::claim("s", "w2", 0)), "the counter has moved");
    assert_eq!(t.rows["s"].lease_owner.as_deref(), Some("w1"));
}

#[test]
fn a_stolen_lease_is_lost_to_its_holder() {
    let mut t = Table::default();
    let held = t.acquire("s", "w1").unwrap();
    assert_eq!(held.lease_counter, 1);
    let stolen = t.acquire("s", "w2").unwrap();
    assert_eq!(stolen.lease_counter, 2);
    assert!(!t.apply(&LeaseWrite::checkpoint("s", "w1", held.lease_counter, "9")));
    assert!(!t.apply(&LeaseWrite::renew("s", "w1", held.lease_counter)));
    assert!(t.apply(&LeaseWrite::checkpoint("s", "w2", 2, "9")));
    assert!(t.apply(&LeaseWrite::renew("s", "w2", 3)));
    assert!(t.apply(&LeaseWrite::mark_complete("s", "w2", 4)));
    assert_eq!(t.rows["s"].checkpoint.as_deref(), Some("9"));
    assert!(t.rows["s"].completed);
}

#[test]
fn released_leases_are_free_and_completed_ones_can_go() {
    let mut t = Table::default();
    t.acquire("s", "w1").unwrap();
    assert!(!t.apply(&LeaseWrite::delete_lease("s")), "not completed");
    assert!(t.apply(&LeaseWrite::release("s", "w1", 1)));
    assert_eq!(t.rows["s"].lease_owner, None);
    assert!(t.apply(&LeaseWrite::claim("s", "w2", 2)));
    assert!(t.apply(&LeaseWrite::mark_complete("s", "w2", 3)));
    assert!(t.apply(&LeaseWrite::delete_lease("s")));
    assert!(t.rows.is_empty());
}

#[test]
fn publication_never_overwrites() {
    let mut t = Table::default();
    t.acquire("s", "w1").unwrap();
    assert!(!t.apply(&LeaseWrite::create_shard_lease("s", &vec!["p".into()], &None)));
    assert!(t.rows["s"].parents.is_empty());
    assert!(publication_failure(Some(CONDITIONAL_CHECK_FAILED), "m").is_ok());
    assert!(matches!(
        publication_failure(Some("ThrottlingException"), "m"),
        Err(LeaseError::Aws(_))
    ));
}

#[test]
fn rows_are_addressed_by_the_key_of_the_table() {
    assert_eq!(TableSetup::key_attribute(), "leaseKey");
    let address = row_key("shard-1");
    assert_eq!(address.len(), 1);
    assert_eq!(
        address.get(TableSetup::key_attribute()),
        Some(&AttrValue::S("shard-1".into()))
    );
    let w = LeaseWrite::create_shard_lease("shard-1", &vec![], &None);
    let item = w.new_item().unwrap();
    assert_eq!(item.get(TableSetup::key_attribute()), Some(&AttrValue::S("shard-1".into())));
    assert_eq!(w.condition_expression(), Some("attribute_not_exists(leaseKey)"));
}

#[test]
fn a_scan_follows_its_pages() {
    let page = |keys: &[&str], last: Option<&str>| ScanPage {
        items: keys.iter().map(|k| row_key(k)).collect(),
        last_evaluated: last.map(row_key),
    };
    let (mut scan, action) = TableScan::list_all();
    assert!(matches!(action, ScanAction::Ask(None)));
    let action = scan.step(page(&["a", "b"], Some("b")));
    assert!(matches!(action, ScanAction::Ask(Some(k)) if k == row_key("b")));
    let action = scan.step(page(&[], Some("c")));
    assert!(matches!(action, ScanAction::Ask(Some(k)) if k == row_key("c")));
    match scan.step(page(&["d"], None)) {
        ScanAction::Finish(leases) => {
            let keys: Vec<&str> = leases.iter().map(|l| l.lease_key.as_str()).collect();
            assert_eq!(keys, vec!["a", "b", "d"]);
        }
        ScanAction::Ask(_) => panic!("there is no further page"),
    }
}

#[test]
fn heartbeats_count_up() {
    let mut t = Table::default();
    let beat = LeaseWrite::heartbeat("w1");
    assert!(t.apply(&beat));
    assert!(t.apply(&beat));
    assert_eq!(t.rows[&beat.key].lease_counter, 2);
    for (value, expected) in [
        (AttrValue::N("2".into()), 2),
        (AttrValue::N("x".into()), 0),
        (AttrValue::S("2".into()), 0),
    ] {
        let mut updated = Item::new();
        updated.insert("leaseCounter".into(), value);
        assert_eq!(heartbeat_counter(&Some(updated)), expected);
    }
    assert_eq!(heartbeat_counter(&Some(Item::new())), 0);
    assert_eq!(heartbeat_counter(&None), 0);
}

#[test]
fn leadership_is_bid_for_on_the_counter() {
    let mut t = Table::default();
    assert!(t.apply(&LeaseWrite::try_acquire_leadership("L", "w1", None)));
    assert_eq!(t.rows["L"].lease_counter, leadership_counter(None));
    assert!(!t.apply(&LeaseWrite::try_acquire_leadership("L", "w2", None)));
    assert!(t.apply(&LeaseWrite::try_acquire_leadership("L", "w2", Some(1))));
    assert_eq!(t.rows["L"].lease_counter, leadership_counter(Some(1)));
    assert_eq!(t.rows["L"].lease_owner.as_deref(), Some("w2"));
    assert!(matches!(leadership_failure(Some(CONDITIONAL_CHECK_FAILED), "m"), Ok(None)));
    assert!(matches!(leadership_failure(None, "m"), Err(LeaseError::Aws(_))));
    assert!(is_condition_failure(Some(CONDITIONAL_CHECK_FAILED)));
}

#[test]
fn a_failed_acquisition_says_why() {
    let (mut m, _) = Acquire::start("s", "w");
    let failed =
        AcquireEvent::WriteFailed(Some("ThrottlingException".to_string()), "slow".to_string());
    match m.step(failed) {
        AcquireAction::Finish(Err(LeaseError::Aws(text))) => assert_eq!(text, "slow"),
        _ => panic!("the creation failed"),
    }
    let (mut m, _) = Acquire::start("s", "w");
    let lost = AcquireEvent::WriteFailed(
        Some(CONDITIONAL_CHECK_FAILED.to_string()),
        "condition".to_string(),
    );
    assert!(matches!(m.step(lost), AcquireAction::Read(_)));
    match m.step(AcquireEvent::Read(None)) {
        AcquireAction::Finish(Err(LeaseError::Aws(text))) => assert_eq!(text, "lease vanished"),
        _ => panic!("there is no row"),
    }
    let (mut m, _) = Acquire::start("s", "w");
    let lost = AcquireEvent::WriteFailed(
        Some(CONDITIONAL_CHECK_FAILED.to_string()),
        "condition".to_string(),
    );
    m.step(lost);
    match m.step(AcquireEvent::ReadFailed("down".to_string())) {
        AcquireAction::Finish(Err(LeaseError::Aws(text))) => assert_eq!(text, "down"),
        _ => panic!("the read failed"),
    }
}

// ---- setup ----

const PITR: LeaseTableConfig =
    LeaseTableConfig { billing: LeaseBilling::PayPerRequest, pitr: true };

#[test]
fn an_existing_table_is_left_alone() {
    let (mut s, a) = TableSetup::ensure_table(PITR);
    assert_eq!(a, SetupAction::Describe);
    assert_eq!(s.step(&SetupEvent::Described(true)), SetupAction::Describe);
    assert_eq!(s.step(&SetupEvent::Described(true)), SetupAction::Done);
}

#[test]
fn a_new_table_is_created_awaited_and_backed_up() {
    let billing = LeaseBilling::Provisioned { read_capacity: 7, write_capacity: 9 };
    let (mut s, _) = TableSetup::ensure_table(LeaseTableConfig { billing, pitr: true });
    let absent = SetupEvent::Failed(Some("ResourceNotFoundException".to_string()));
    assert_eq!(s.step(&absent), SetupAction::Create(billing));
    assert_eq!(s.step(&SetupEvent::Succeeded), SetupAction::Describe);
    assert_eq!(s.step(&SetupEvent::Described(false)), SetupAction::WaitThenDescribe(500));
    assert_eq!(s.step(&SetupEvent::Described(true)), SetupAction::EnableBackups);
    let unavailable =
        SetupEvent::Failed(Some("ContinuousBackupsUnavailableException".to_string()));
    assert_eq!(s.step(&unavailable), SetupAction::WaitThenEnableBackups(500));
    assert_eq!(s.step(&unavailable), SetupAction::WaitThenEnableBackups(1000));
    assert_eq!(s.step(&SetupEvent::Succeeded), SetupAction::Done);
}

#[test]
fn backups_are_given_up_after_twelve_retries() {
    let (mut s, _) = TableSetup::ensure_table(PITR);
    s.step(&SetupEvent::Failed(None));
    s.step(&SetupEvent::Succeeded);
    s.step(&SetupEvent::Described(true));
    let unavailable =
        SetupEvent::Failed(Some("ContinuousBackupsUnavailableException".to_string()));
    for n in 1..=12u64 {
        assert_eq!(s.step(&unavailable), SetupAction::WaitThenEnableBackups(500 * n));
    }
    assert_eq!(s.step(&unavailable), SetupAction::Fail);
}

#[test]
fn without_the_request_no_backups_are_enabled() {
    let (mut s, _) = TableSetup::ensure_table(LeaseTableConfig::default());
    s.step(&SetupEvent::Failed(None));
    s.step(&SetupEvent::Succeeded);
    assert_eq!(s.step(&SetupEvent::Described(true)), SetupAction::Done);
    let (mut s, _) = TableSetup::ensure_table(LeaseTableConfig::default());
    s.step(&SetupEvent::Failed(None));
    assert_eq!(s.step(&SetupEvent::Failed(None)), SetupAction::Fail, "creation failed");
}
