//! The single-worker scheduler over an in-memory stream and lease table.

use std::cell::{Cell, RefCell};
use std::collections::HashMap;
use std::rc::Rc;

use dynamodb_streams_consumer::leader::ShardMeta;
use dynamodb_streams_consumer::scheduler::{
    LeaseStore, Record, RecordBatch, RecordProcessor, Scheduler, SequenceNumber, ShardId,
    StreamSource, Sweep,
};

struct InMemSource {
    metas: Vec<ShardMeta>,
    data: HashMap<ShardId, Vec<Record>>,
}

impl StreamSource for InMemSource {
    fn describe_shards(&self) -> Vec<ShardMeta> {
        self.metas.clone()
    }
    fn get_records(&self, shard: &ShardId, after: Option<SequenceNumber>) -> RecordBatch {
        let all = self.data.get(shard).cloned().unwrap_or_default();
        let records = match after {
            None => all,
            Some(tok) => match all.iter().position(|r| r.seq == tok) {
                Some(idx) => all[idx + 1..].to_vec(),
                None => all,
            },
        };
        RecordBatch { records, shard_end: true, millis_behind_latest: None }
    }
}

#[derive(Default)]
struct InMemLeases {
    checkpoints: HashMap<ShardId, SequenceNumber>,
    complete: HashMap<ShardId, bool>,
}

impl LeaseStore for InMemLeases {
    fn checkpoint(&mut self, shard: &ShardId, seq: SequenceNumber) {
        self.checkpoints.insert(shard.clone(), seq);
    }
    fn last_checkpoint(&self, shard: &ShardId) -> Option<SequenceNumber> {
        self.checkpoints.get(shard).cloned()
    }
    fn mark_complete(&mut self, shard: &ShardId) {
        self.complete.insert(shard.clone(), true);
    }
    fn is_complete(&self, shard: &ShardId) -> bool {
        *self.complete.get(shard).unwrap_or(&false)
    }
}

#[derive(Default)]
struct RecordingProcessor {
    events: Vec<String>,
}

impl RecordProcessor for RecordingProcessor {
    fn initialize(&mut self, shard: &ShardId) {
        self.events.push(format!("init:{shard}"));
    }
    fn process_records(&mut self, records: &[Record]) {
        for r in records {
            self.events.push(format!("rec:{}:{}", r.shard_id, r.seq));
        }
    }
    fn shard_ended(&mut self, shard: &ShardId) {
        self.events.push(format!("end:{shard}"));
    }
}

fn rec(shard: &str, seq: &str) -> Record {
    Record { shard_id: shard.to_string(), seq: seq.to_string(), data: vec![] }
}

fn shard(id: &str, parents: &[&str]) -> ShardMeta {
    ShardMeta { id: id.into(), parents: parents.iter().map(|p| p.to_string()).collect() }
}

#[test]
fn parent_before_child_ordering() {
    let mut data = HashMap::new();
    data.insert(
        "shard-parent".to_string(),
        vec![rec("shard-parent", "1"), rec("shard-parent", "2")],
    );
    data.insert(
        "shard-child".to_string(),
        vec![rec("shard-child", "3"), rec("shard-child", "4")],
    );
    let source = InMemSource {
        metas: vec![shard("shard-child", &["shard-parent"]), shard("shard-parent", &[])],
        data,
    };
    let mut proc = RecordingProcessor::default();
    let mut sched = Scheduler::new(source, InMemLeases::default());
    sched.run(&mut proc);
    assert_eq!(
        proc.events,
        vec![
            "init:shard-parent",
            "rec:shard-parent:1",
            "rec:shard-parent:2",
            "end:shard-parent",
            "init:shard-child",
            "rec:shard-child:3",
            "rec:shard-child:4",
            "end:shard-child",
        ],
        "child must not be touched until parent reaches SHARD_END + checkpoint"
    );
}

#[test]
fn per_shard_sequence_order() {
    let mut data = HashMap::new();
    data.insert("s".to_string(), vec![rec("s", "10"), rec("s", "11"), rec("s", "12")]);
    let source = InMemSource { metas: vec![shard("s", &[])], data };
    let mut proc = RecordingProcessor::default();
    let mut sched = Scheduler::new(source, InMemLeases::default());
    sched.run(&mut proc);
    assert_eq!(proc.events, vec!["init:s", "rec:s:10", "rec:s:11", "rec:s:12", "end:s"]);
}

#[test]
fn merge_child_waits_for_both_parents() {
    let mut data = HashMap::new();
    data.insert("p-a".to_string(), vec![rec("p-a", "1"), rec("p-a", "2")]);
    data.insert("p-b".to_string(), vec![rec("p-b", "3"), rec("p-b", "4")]);
    data.insert("child".to_string(), vec![rec("child", "5")]);
    let source = InMemSource {
        metas: vec![shard("child", &["p-a", "p-b"]), shard("p-a", &[]), shard("p-b", &[])],
        data,
    };
    let mut proc = RecordingProcessor::default();
    let mut sched = Scheduler::new(source, InMemLeases::default());
    sched.run(&mut proc);

    let pos = |e: &str| proc.events.iter().position(|x| x == e).expect(e);
    let end_a = pos("end:p-a");
    let end_b = pos("end:p-b");
    let child_init = pos("init:child");
    let child_rec = pos("rec:child:5");
    assert!(
        child_init > end_a && child_init > end_b,
        "child before both parents ended: {:?}",
        proc.events
    );
    assert!(child_rec > child_init);
    assert!(pos("rec:p-a:1") < pos("rec:p-a:2") && pos("rec:p-a:2") < end_a);
    assert!(pos("rec:p-b:3") < pos("rec:p-b:4") && pos("rec:p-b:4") < end_b);
}

#[test]
fn reshard_storm_multilevel_ordering() {
    let mut data = HashMap::new();
    data.insert("g0".to_string(), vec![rec("g0", "1")]);
    data.insert("g1".to_string(), vec![rec("g1", "2")]);
    data.insert("g2".to_string(), vec![rec("g2", "3")]);
    let source = InMemSource {
        metas: vec![shard("g2", &["g1"]), shard("g1", &["g0"]), shard("g0", &[])],
        data,
    };
    let mut proc = RecordingProcessor::default();
    let mut sched = Scheduler::new(source, InMemLeases::default());
    sched.run(&mut proc);
    assert_eq!(
        proc.events,
        vec![
            "init:g0", "rec:g0:1", "end:g0", "init:g1", "rec:g1:2", "end:g1", "init:g2",
            "rec:g2:3", "end:g2",
        ]
    );
}

#[test]
fn resumes_after_checkpoint() {
    let mut data = HashMap::new();
    data.insert("s".to_string(), vec![rec("s", "10"), rec("s", "11"), rec("s", "12")]);
    let source = InMemSource { metas: vec![shard("s", &[])], data };
    let mut leases = InMemLeases::default();
    leases.checkpoint(&"s".to_string(), "11".to_string());
    let mut proc = RecordingProcessor::default();
    let mut sched = Scheduler::new(source, leases);
    sched.run(&mut proc);
    assert_eq!(proc.events, vec!["init:s", "rec:s:12", "end:s"]);
}

#[test]
fn a_graph_without_a_root_is_stuck() {
    let source = InMemSource { metas: vec![shard("a", &["b"])], data: HashMap::new() };
    let mut proc = RecordingProcessor::default();
    let mut sched = Scheduler::new(source, InMemLeases::default());
    assert_eq!(sched.sweep(&mut proc), Sweep::Stuck);
    sched.run(&mut proc);
    assert!(proc.events.is_empty());
}

#[test]
fn a_sweep_says_what_it_came_to() {
    let source = InMemSource { metas: vec![shard("s", &[])], data: HashMap::new() };
    let mut proc = RecordingProcessor::default();
    let mut sched = Scheduler::new(source, InMemLeases::default());
    assert_eq!(sched.sweep(&mut proc), Sweep::Progressed);
    assert_eq!(sched.sweep(&mut proc), Sweep::Complete);
    assert_eq!(proc.events, vec!["init:s", "end:s"]);
}

/// A lease table and a processor that note their calls in one list.
struct NotingLeases {
    inner: InMemLeases,
    notes: Rc<RefCell<Vec<String>>>,
}

impl LeaseStore for NotingLeases {
    fn checkpoint(&mut self, shard: &ShardId, seq: SequenceNumber) {
        self.notes.borrow_mut().push(format!("checkpoint:{shard}:{seq}"));
        self.inner.checkpoint(shard, seq);
    }
    fn last_checkpoint(&self, shard: &ShardId) -> Option<SequenceNumber> {
        self.inner.last_checkpoint(shard)
    }
    fn mark_complete(&mut self, shard: &ShardId) {
        self.notes.borrow_mut().push(format!("complete:{shard}"));
        self.inner.mark_complete(shard);
    }
    fn is_complete(&self, shard: &ShardId) -> bool {
        self.inner.is_complete(shard)
    }
}

struct NotingProcessor(Rc<RefCell<Vec<String>>>);

impl RecordProcessor for NotingProcessor {
    fn initialize(&mut self, shard: &ShardId) {
        self.0.borrow_mut().push(format!("init:{shard}"));
    }
    fn process_records(&mut self, records: &[Record]) {
        self.0.borrow_mut().push(format!("process:{}", records.len()));
    }
    fn shard_ended(&mut self, shard: &ShardId) {
        self.0.borrow_mut().push(format!("end:{shard}"));
    }
}

#[test]
fn a_batch_is_processed_right_before_its_checkpoint() {
    let mut data = HashMap::new();
    data.insert("s".to_string(), vec![rec("s", "1"), rec("s", "2")]);
    let source = InMemSource { metas: vec![shard("s", &[])], data };
    let notes = Rc::new(RefCell::new(vec![]));
    let leases = NotingLeases { inner: InMemLeases::default(), notes: notes.clone() };
    Scheduler::new(source, leases).run(&mut NotingProcessor(notes.clone()));
    assert_eq!(
        *notes.borrow(),
        vec!["init:s", "process:2", "checkpoint:s:2", "end:s", "complete:s"]
    );
}

/// A stream whose children appear only after it was described once.
struct Growing {
    described: Cell<usize>,
}

impl StreamSource for Growing {
    fn describe_shards(&self) -> Vec<ShardMeta> {
        self.described.set(self.described.get() + 1);
        if self.described.get() == 1 {
            vec![shard("p", &[])]
        } else {
            vec![shard("c", &["p"]), shard("p", &[])]
        }
    }
    fn get_records(&self, _shard: &ShardId, _after: Option<SequenceNumber>) -> RecordBatch {
        RecordBatch { records: vec![], shard_end: true, millis_behind_latest: None }
    }
}

#[test]
fn a_graph_that_changes_is_drained_too() {
    let mut proc = RecordingProcessor::default();
    Scheduler::new(Growing { described: Cell::new(0) }, InMemLeases::default()).run(&mut proc);
    assert_eq!(proc.events, vec!["init:p", "end:p", "init:c", "end:c"]);
}
