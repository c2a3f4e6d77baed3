//! What a processor sees of a record, and how a worker is configured.

use dynamodb_streams_consumer::client::{
    decode_record, default_owner, LoopAction, LoopEvent, MissingSetting, StopHandle,
    WorkerBuilder, WorkerLoop,
};
use dynamodb_streams_consumer::json::{item_to_json, to_ddb_json, to_native_json, RecordFormat};
use dynamodb_streams_consumer::position::InitialPosition;
use dynamodb_streams_consumer::record::{AttrValue, Item, StreamRecord};
use dynamodb_streams_consumer::scheduler::Record as CoreRecord;
use serde_json::Value;

fn text(s: &str) -> Value {
    Value::String(s.to_string())
}

fn list(items: Vec<Value>) -> Value {
    Value::Array(items)
}

fn object(entries: Vec<(&str, Value)>) -> Value {
    Value::Object(entries.into_iter().map(|(k, v)| (k.to_string(), v)).collect())
}

fn sample_item() -> Item {
    let mut inner = Item::new();
    inner.insert("k".to_string(), AttrValue::S("v".into()));
    let mut m = Item::new();
    m.insert("id".into(), AttrValue::N("42".into()));
    m.insert("name".into(), AttrValue::S("widget".into()));
    m.insert("active".into(), AttrValue::Bool(true));
    m.insert("deleted".into(), AttrValue::Null);
    m.insert("blob".into(), AttrValue::B(vec![1, 2, 3]));
    m.insert("tags".into(), AttrValue::Ss(vec!["a".into(), "b".into()]));
    m.insert("scores".into(), AttrValue::Ns(vec!["1".into(), "2.5".into()]));
    m.insert("meta".into(), AttrValue::M(inner));
    m.insert("list".into(), AttrValue::L(vec![AttrValue::N("7".into()), AttrValue::Null]));
    m
}

#[test]
fn native_json_has_no_type_wrappers_and_keeps_numbers_as_strings() {
    let v = item_to_json(&sample_item(), RecordFormat::Native);
    assert_eq!(v["id"], text("42"));
    assert_eq!(v["name"], text("widget"));
    assert_eq!(v["active"], Value::Bool(true));
    assert_eq!(v["deleted"], Value::Null);
    assert_eq!(v["blob"], text("AQID"));
    assert_eq!(v["tags"], list(vec![text("a"), text("b")]));
    assert_eq!(v["scores"], list(vec![text("1"), text("2.5")]));
    assert_eq!(v["meta"], object(vec![("k", text("v"))]));
    assert_eq!(v["list"], list(vec![text("7"), Value::Null]));
}

#[test]
fn ddb_json_is_canonical_typed_form() {
    let v = item_to_json(&sample_item(), RecordFormat::DdbJson);
    assert_eq!(v["id"], object(vec![("N", text("42"))]));
    assert_eq!(v["name"], object(vec![("S", text("widget"))]));
    assert_eq!(v["active"], object(vec![("BOOL", Value::Bool(true))]));
    assert_eq!(v["deleted"], object(vec![("NULL", Value::Bool(true))]));
    assert_eq!(v["blob"], object(vec![("B", text("AQID"))]));
    assert_eq!(v["tags"], object(vec![("SS", list(vec![text("a"), text("b")]))]));
    assert_eq!(v["scores"], object(vec![("NS", list(vec![text("1"), text("2.5")]))]));
    assert_eq!(
        v["meta"],
        object(vec![("M", object(vec![("k", object(vec![("S", text("v"))]))]))])
    );
    assert_eq!(
        v["list"],
        object(vec![(
            "L",
            list(vec![
                object(vec![("N", text("7"))]),
                object(vec![("NULL", Value::Bool(true))]),
            ])
        )])
    );
}

#[test]
fn decode_record_populates_typed_and_json_views() {
    let mut keys = Item::new();
    keys.insert("pk".into(), AttrValue::S("k1".into()));
    let mut new_image = keys.clone();
    new_image.insert("n".into(), AttrValue::N("5".into()));
    let sr = StreamRecord {
        event_name: Some("INSERT".into()),
        sequence_number: Some("100".into()),
        stream_view_type: Some("NEW_IMAGE".into()),
        keys,
        new_image: Some(new_image),
        ..Default::default()
    };
    let core = CoreRecord { shard_id: "shard-1".into(), seq: "100".into(), data: vec![] };

    let rec = decode_record(&core, Some(sr.clone()), RecordFormat::Native);
    assert_eq!(rec.shard_id, "shard-1");
    assert_eq!(rec.sequence_number, "100");
    assert_eq!(rec.event_name.as_deref(), Some("INSERT"));
    assert_eq!(rec.keys.get("pk"), Some(&AttrValue::S("k1".into())));
    assert_eq!(rec.new_image_json().unwrap()["n"], text("5"));
    assert_eq!(rec.keys_json(), object(vec![("pk", text("k1"))]));
    assert_eq!(rec.old_image_json(), None);
    assert_eq!(rec.record_format(), RecordFormat::Native);

    let rec2 = decode_record(&core, Some(sr), RecordFormat::DdbJson);
    assert_eq!(rec2.new_image_json().unwrap()["n"], object(vec![("N", text("5"))]));
}

#[test]
fn undecodable_payload_yields_empty_images_not_panic() {
    let core =
        CoreRecord { shard_id: "s".into(), seq: "1".into(), data: b"not json".to_vec() };
    let rec = decode_record(&core, None, RecordFormat::Native);
    assert_eq!(rec.sequence_number, "1");
    assert!(rec.keys.is_empty());
    assert!(rec.new_image.is_none());
}

#[test]
fn from_sdk_empty_images_are_none() {
    let out = StreamRecord::from_parts(
        None,
        Some("1".into()),
        None,
        None,
        None,
        Some(Item::new()),
        Some(Item::new()),
    );
    assert!(out.new_image.is_none());
    assert!(out.old_image.is_none());
    assert!(out.keys.is_empty());
    assert_eq!(out.sequence_number.as_deref(), Some("1"));
}

#[test]
fn images_with_attributes_are_kept() {
    let out = StreamRecord::from_parts(
        Some("MODIFY".into()),
        None,
        Some(64),
        None,
        Some(sample_item()),
        Some(sample_item()),
        None,
    );
    assert_eq!(out.event_name.as_deref(), Some("MODIFY"));
    assert_eq!(out.size_bytes, Some(64));
    assert_eq!(out.keys, sample_item());
    assert_eq!(out.new_image, Some(sample_item()));
    assert!(out.old_image.is_none());
}

#[test]
fn items_are_maps() {
    let mut m = Item::new();
    m.insert("b".into(), AttrValue::Null);
    m.insert("a".into(), AttrValue::Bool(false));
    m.insert("b".into(), AttrValue::Bool(true));
    assert_eq!(m.len(), 2);
    assert_eq!(m.get("b"), Some(&AttrValue::Bool(true)));
    assert_eq!(m.get("c"), None);
    assert_eq!(m.entry(0).0, "a");
}

#[test]
fn base64_pads_and_uses_the_standard_alphabet() {
    let b = |bytes: &[u8]| to_native_json(&AttrValue::B(bytes.to_vec()));
    assert_eq!(b(&[]), text(""));
    assert_eq!(b(&[0x66]), text("Zg=="));
    assert_eq!(b(&[0x66, 0x6f]), text("Zm8="));
    assert_eq!(b(&[0x66, 0x6f, 0x6f]), text("Zm9v"));
    assert_eq!(b(&[0xfb, 0xff, 0xfe]), text("+//+"));
    assert_eq!(
        to_ddb_json(&AttrValue::Bs(vec![vec![1, 2, 3], vec![]])),
        object(vec![("BS", list(vec![text("AQID"), text("")]))])
    );
    assert_eq!(
        to_native_json(&AttrValue::Bs(vec![vec![1, 2, 3]])),
        list(vec![text("AQID")])
    );
}

#[test]
fn default_owner_is_host_and_pid() {
    assert_eq!(default_owner(Some("h"), 42), "h-42");
    assert_eq!(default_owner(None, 7), "host-7");
}

#[test]
fn a_complete_configuration_is_resolved() {
    let s = WorkerBuilder::default()
        .stream_arn("arn")
        .lease_table("leases")
        .region("eu-west-1")
        .record_format(RecordFormat::DdbJson)
        .max_leases(5)
        .poll_interval_ms(200)
        .initial_position(InitialPosition::Latest)
        .max_processing_concurrency(3)
        .processor("factory")
        .resolve(Some("h"), 1)
        .ok()
        .unwrap();
    assert_eq!(s.stream_arn, "arn");
    assert_eq!(s.lease_table, "leases");
    assert_eq!(s.region.as_deref(), Some("eu-west-1"));
    assert_eq!(s.record_format, RecordFormat::DdbJson);
    assert_eq!(s.fleet.owner, "h-1");
    assert_eq!(s.fleet.max_leases, 5);
    assert_eq!(s.fleet.lease_duration_ms, 60_000);
    assert_eq!(s.fleet.poll_interval_ms, 200);
    assert_eq!(s.fleet.initial_position, InitialPosition::Latest);
    assert_eq!(s.max_processing_concurrency, Some(3));
    assert_eq!(s.processor, "factory");

    let s = WorkerBuilder::default()
        .stream_arn("arn")
        .lease_table("leases")
        .owner("me")
        .lease_duration_ms(9)
        .processor(())
        .resolve(None, 1)
        .ok()
        .unwrap();
    assert_eq!(s.fleet.owner, "me");
    assert_eq!(s.fleet.max_leases, 100);
    assert_eq!(s.fleet.lease_duration_ms, 9);
    assert_eq!(s.fleet.poll_interval_ms, 1_000);
    assert_eq!(s.fleet.initial_position, InitialPosition::TrimHorizon);
    assert_eq!(s.record_format, RecordFormat::Native);
    assert_eq!(s.max_processing_concurrency, None);
}

#[test]
fn what_is_missing_is_named() {
    let b = WorkerBuilder::<()>::default();
    assert_eq!(b.resolve(None, 1).err(), Some(MissingSetting::StreamArn));
    let b = WorkerBuilder::<()>::default().stream_arn("arn");
    assert_eq!(b.resolve(None, 1).err(), Some(MissingSetting::LeaseTable));
    let b = WorkerBuilder::<()>::default().stream_arn("arn").lease_table("t");
    assert_eq!(b.resolve(None, 1).err(), Some(MissingSetting::Processor));
    assert_eq!(MissingSetting::StreamArn.message(), "stream_arn is required");
    assert_eq!(MissingSetting::LeaseTable.message(), "lease_table is required");
    assert_eq!(MissingSetting::Processor.message(), "processor is required");
}

#[test]
fn clones_of_a_stop_handle_share_the_request() {
    let h = StopHandle::new();
    let other = h.clone();
    assert!(!other.is_stopped());
    h.stop();
    assert!(other.is_stopped());
}

#[test]
fn a_worker_runs_cycles_until_it_is_stopped_and_then_releases() {
    let h = StopHandle::new();
    let (mut run, action) = WorkerLoop::start(250);
    assert_eq!(action, LoopAction::AskStop);
    assert_eq!(run.check(&h), LoopAction::RunCycle);
    assert_eq!(run.step(LoopEvent::Cycled(false)), LoopAction::Rest(250));
    assert_eq!(run.step(LoopEvent::Rested), LoopAction::AskStop);
    assert_eq!(run.check(&h), LoopAction::RunCycle);
    h.stop();
    assert_eq!(run.step(LoopEvent::Cycled(false)), LoopAction::Rest(250));
    assert_eq!(run.step(LoopEvent::Rested), LoopAction::AskStop);
    assert_eq!(run.check(&h), LoopAction::AskStop);
    assert_eq!(run.check(&h), LoopAction::Release);
    assert_eq!(run.step(LoopEvent::Released), LoopAction::Finish);
}

#[test]
fn a_worker_whose_shards_are_complete_keeps_its_leases() {
    let h = StopHandle::new();
    let (mut run, _) = WorkerLoop::start(1);
    assert_eq!(run.check(&h), LoopAction::RunCycle);
    assert_eq!(run.step(LoopEvent::Cycled(true)), LoopAction::AskStop);
    assert_eq!(run.check(&h), LoopAction::Finish);
}

#[test]
fn a_failed_cycle_ends_the_loop_of_a_worker() {
    let (mut run, _) = WorkerLoop::start(1);
    assert_eq!(run.step(LoopEvent::Asked(false)), LoopAction::RunCycle);
    assert_eq!(run.step(LoopEvent::CycleFailed), LoopAction::Fail);
    assert_eq!(run.step(LoopEvent::Rested), LoopAction::Fail);
}
