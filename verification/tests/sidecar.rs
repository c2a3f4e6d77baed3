//! The configuration of the process, and the handoff when it stops.

use dynamodb_streams_consumer::collections::StringMap;
use dynamodb_streams_consumer::lease_table::LeaseBilling;
use dynamodb_streams_consumer::position::InitialPosition;
use dynamodb_streams_consumer::sidecar::{
    graceful_handoff, Config, HandoffStep, SidecarAction, SidecarEvent, SidecarLoop,
};

fn env(vars: &[(&str, &str)]) -> StringMap<String> {
    let mut m = StringMap::new();
    for (k, v) in vars {
        m.insert(k.to_string(), v.to_string());
    }
    m
}

#[test]
fn missing_required_is_an_error() {
    assert!(Config::from_env(&env(&[]), 1).is_err(), "no stream arn → error");
    let vars = env(&[("DDB_STREAMS_CONSUMER_STREAM_ARN", "arn")]);
    assert!(Config::from_env(&vars, 1).is_err(), "no lease table → error");
    assert_eq!(
        Config::from_env(&env(&[]), 1).err().unwrap(),
        "missing required env var DDB_STREAMS_CONSUMER_STREAM_ARN"
    );
    assert_eq!(
        Config::from_env(&vars, 1).err().unwrap(),
        "missing required env var DDB_STREAMS_CONSUMER_LEASE_TABLE"
    );
}

#[test]
fn defaults_and_owner_fallback() {
    let vars = env(&[
        ("DDB_STREAMS_CONSUMER_STREAM_ARN", "arn"),
        ("DDB_STREAMS_CONSUMER_LEASE_TABLE", "leases"),
        ("HOSTNAME", "host7"),
    ]);
    let c = Config::from_env(&vars, 4711).unwrap();
    assert_eq!(c.max_leases, 100);
    assert_eq!(c.lease_duration_ms, 10_000);
    assert_eq!(c.poll_interval_ms, 1_000);
    assert_eq!(c.cycle_interval_ms, 1_000);
    assert!(
        c.owner.starts_with("host7:"),
        "owner defaults to <host>:<pid>, got {}",
        c.owner
    );
    assert_eq!(c.owner, "host7:4711");
    assert_eq!(c.max_records, None);
    assert_eq!(c.max_processing_concurrency, None);
    assert_eq!(c.lease_table_config.billing, LeaseBilling::PayPerRequest);
    assert!(!c.lease_table_config.pitr);
    assert_eq!(c.graceful_shutdown_timeout_ms, 5_000);
    assert_eq!(c.initial_position, InitialPosition::TrimHorizon);
}

#[test]
fn explicit_values_are_parsed() {
    let vars = env(&[
        ("DDB_STREAMS_CONSUMER_STREAM_ARN", "arn"),
        ("DDB_STREAMS_CONSUMER_LEASE_TABLE", "leases"),
        ("DDB_STREAMS_CONSUMER_OWNER", "worker-9"),
        ("DDB_STREAMS_CONSUMER_MAX_LEASES", "5"),
        ("DDB_STREAMS_CONSUMER_LEASE_DURATION_MS", "3000"),
        ("DDB_STREAMS_CONSUMER_POLL_INTERVAL_MS", "200"),
        ("DDB_STREAMS_CONSUMER_CYCLE_INTERVAL_MS", "250"),
        ("DDB_STREAMS_CONSUMER_MAX_RECORDS", "250"),
        ("DDB_STREAMS_CONSUMER_MAX_PROCESSING_CONCURRENCY", "4"),
        ("DDB_STREAMS_CONSUMER_LEASE_BILLING_MODE", "provisioned"),
        ("DDB_STREAMS_CONSUMER_LEASE_READ_CAPACITY", "7"),
        ("DDB_STREAMS_CONSUMER_LEASE_WRITE_CAPACITY", "9"),
        ("DDB_STREAMS_CONSUMER_LEASE_PITR", "true"),
    ]);
    let c = Config::from_env(&vars, 1).unwrap();
    assert_eq!(c.owner, "worker-9");
    assert_eq!(c.max_leases, 5);
    assert_eq!(c.max_processing_concurrency, Some(4));
    assert_eq!(c.lease_duration_ms, 3000);
    assert_eq!(c.poll_interval_ms, 200);
    assert_eq!(c.cycle_interval_ms, 250);
    assert_eq!(c.max_records, Some(250));
    assert_eq!(
        c.lease_table_config.billing,
        LeaseBilling::Provisioned { read_capacity: 7, write_capacity: 9 }
    );
    assert!(c.lease_table_config.pitr);
}

#[test]
fn unreadable_values_fall_back() {
    let vars = env(&[
        ("DDB_STREAMS_CONSUMER_STREAM_ARN", "arn"),
        ("DDB_STREAMS_CONSUMER_LEASE_TABLE", "leases"),
        ("DDB_STREAMS_CONSUMER_MAX_LEASES", "-5"),
        ("DDB_STREAMS_CONSUMER_LEASE_DURATION_MS", " 3000"),
        ("DDB_STREAMS_CONSUMER_POLL_INTERVAL_MS", "+200"),
        ("DDB_STREAMS_CONSUMER_CYCLE_INTERVAL_MS", "18446744073709551616"),
        ("DDB_STREAMS_CONSUMER_GRACEFUL_SHUTDOWN_MS", ""),
        ("DDB_STREAMS_CONSUMER_MAX_RECORDS", "-7"),
        ("DDB_STREAMS_CONSUMER_MAX_PROCESSING_CONCURRENCY", "0"),
        ("DDB_STREAMS_CONSUMER_LEASE_BILLING_MODE", " PROVISIONED"),
        ("DDB_STREAMS_CONSUMER_LEASE_PITR", " On\n"),
        ("DDB_STREAMS_CONSUMER_INITIAL_POSITION", "latest"),
    ]);
    let c = Config::from_env(&vars, 1).unwrap();
    assert_eq!(c.max_leases, 100);
    assert_eq!(c.lease_duration_ms, 10_000);
    assert_eq!(c.poll_interval_ms, 200);
    assert_eq!(c.cycle_interval_ms, 1_000);
    assert_eq!(c.graceful_shutdown_timeout_ms, 5_000);
    assert_eq!(c.max_records, Some(-7));
    assert_eq!(c.max_processing_concurrency, None);
    assert_eq!(c.lease_table_config.billing, LeaseBilling::PayPerRequest);
    assert!(c.lease_table_config.pitr);
    assert_eq!(c.initial_position, InitialPosition::Latest);
    assert_eq!(c.owner, "host:1");
}

#[test]
fn an_unknown_position_is_an_error() {
    let vars = env(&[("DDB_STREAMS_CONSUMER_INITIAL_POSITION", "tip")]);
    assert_eq!(
        Config::from_env(&vars, 1).err().unwrap(),
        "invalid DDB_STREAMS_CONSUMER_INITIAL_POSITION: tip"
    );
}

// ---- handoff ----

#[derive(Clone, PartialEq, Debug)]
enum Ev {
    Notify(String),
    Wait(u64),
    Release,
}

fn events(steps: Vec<HandoffStep>) -> Vec<Ev> {
    steps
        .into_iter()
        .map(|s| match s {
            HandoffStep::Notify(shard) => Ev::Notify(shard),
            HandoffStep::Wait(ms) => Ev::Wait(ms),
            HandoffStep::Release => Ev::Release,
        })
        .collect()
}

#[test]
fn handoff_notifies_every_owned_shard_before_release() {
    let owned = Some(vec!["s0".to_string(), "s1".to_string(), "s2".to_string()]);
    assert_eq!(
        events(graceful_handoff(&owned, 0)),
        vec![
            Ev::Notify("s0".into()),
            Ev::Notify("s1".into()),
            Ev::Notify("s2".into()),
            Ev::Wait(0),
            Ev::Release,
        ],
        "all owned shards must be notified, in order, before release"
    );
}

#[test]
fn handoff_releases_without_notifying_when_no_shards_owned() {
    assert_eq!(events(graceful_handoff(&Some(vec![]), 0)), vec![Ev::Release]);
}

#[test]
fn handoff_still_releases_when_owned_lookup_fails() {
    assert_eq!(events(graceful_handoff(&None, 7)), vec![Ev::Release]);
}

fn paced_config() -> Config {
    let vars = env(&[
        ("DDB_STREAMS_CONSUMER_STREAM_ARN", "arn"),
        ("DDB_STREAMS_CONSUMER_LEASE_TABLE", "t"),
        ("DDB_STREAMS_CONSUMER_CYCLE_INTERVAL_MS", "250"),
        ("DDB_STREAMS_CONSUMER_GRACEFUL_SHUTDOWN_MS", "750"),
    ]);
    Config::from_env(&vars, 1).unwrap()
}

#[test]
fn the_process_cycles_until_it_is_stopped() {
    let (mut run, action) = SidecarLoop::start(&paced_config());
    assert_eq!(action, SidecarAction::AskStop);
    assert_eq!(run.step(SidecarEvent::Asked(false)), SidecarAction::RunCycle);
    assert_eq!(run.step(SidecarEvent::Cycled(false)), SidecarAction::Rest(250));
    assert_eq!(run.step(SidecarEvent::Rested), SidecarAction::AskStop);
    assert_eq!(run.step(SidecarEvent::Asked(false)), SidecarAction::RunCycle);
    assert_eq!(run.step(SidecarEvent::CycleFailed), SidecarAction::Rest(250), "it goes on");
    assert_eq!(run.step(SidecarEvent::Rested), SidecarAction::AskStop);
    assert_eq!(run.step(SidecarEvent::Asked(true)), SidecarAction::HandOff(750));
    assert_eq!(run.step(SidecarEvent::HandedOff), SidecarAction::Close);
    assert_eq!(run.step(SidecarEvent::Closed), SidecarAction::Finish);
    assert_eq!(run.step(SidecarEvent::Closed), SidecarAction::Fail, "out of turn");
}

#[test]
fn the_process_hands_off_when_all_is_done_or_its_rest_is_interrupted() {
    let (mut run, _) = SidecarLoop::start(&paced_config());
    run.step(SidecarEvent::Asked(false));
    assert_eq!(run.step(SidecarEvent::Cycled(true)), SidecarAction::HandOff(750));

    let (mut run, _) = SidecarLoop::start(&paced_config());
    run.step(SidecarEvent::Asked(false));
    run.step(SidecarEvent::Cycled(false));
    assert_eq!(run.step(SidecarEvent::Interrupted), SidecarAction::HandOff(750));
}
