//! The single-worker scheduler: it drains shards in dependency order, delivers
//! each shard's records in sequence, and checkpoints as it goes.
//!
//! The stream, the lease table and the record processor are behind traits. What
//! the scheduler does is stated over the calls that it makes, in order, the
//! contents of the lease table, and what the stream may return.

use vstd::prelude::*;

use crate::collections;
use crate::leader::{ShardMeta, ShardNode};
use crate::leader;
use crate::scheduler::desk::{Call, Desk};

pub mod desk;

verus! {

/// A shard id.
pub type ShardId = String;

/// A sequence number: an opaque token that is never compared or parsed, only
/// kept as a checkpoint and handed back to the source.
pub type SequenceNumber = String;

/// A change record of a shard.
#[derive(Clone, Debug)]
pub struct Record {
    pub shard_id: ShardId,
    pub seq: SequenceNumber,
    pub data: Vec<u8>,
}

/// The contents of a record.
pub struct RecordModel {
    pub shard: Seq<char>,
    pub seq: Seq<char>,
    pub data: Seq<u8>,
}

impl View for Record {
    type V = RecordModel;

    open spec fn view(&self) -> RecordModel {
        RecordModel { shard: self.shard_id@, seq: self.seq@, data: self.data@ }
    }
}

/// The contents of some records.
pub open spec fn record_models(s: Seq<Record>) -> Seq<RecordModel> {
    s.map_values(|r: Record| r@)
}

/// What one read of a shard returns.
pub struct RecordBatch {
    pub records: Vec<Record>,
    /// The shard is closed: no more records will arrive.
    pub shard_end: bool,
    /// Consumer lag in milliseconds, when known.
    pub millis_behind_latest: Option<i64>,
}

/// The contents of a batch.
pub struct Batch {
    pub records: Seq<RecordModel>,
    pub shard_end: bool,
    pub lag: Option<i64>,
}

impl View for RecordBatch {
    type V = Batch;

    open spec fn view(&self) -> Batch {
        Batch {
            records: record_models(self.records@),
            shard_end: self.shard_end,
            lag: self.millis_behind_latest,
        }
    }
}

/// The stream.
///
/// Nothing is assumed of what it returns beyond what an implementation says of
/// itself, except that a shard holds finitely many records.
///
/// The ghost functions have defaults because an implementation outside Verus
/// cannot give any. The defaults of the functions that methods promise something
/// of are arbitrary: an implementation that keeps them is outside the proof, and
/// what is proved of the scheduler holds of it only as far as it behaves as some
/// implementation that gives its own. The same is true of [`LeaseStore`] and
/// [`RecordProcessor`].
pub trait StreamSource {
    /// The shard graphs that the stream may describe.
    open spec fn may_describe(&self, graph: Seq<ShardNode>) -> bool {
        true
    }

    /// The batches that a read of `shard` after `after` may return.
    open spec fn may_read(&self, shard: Seq<char>, after: Option<Seq<char>>, batch: Batch) -> bool {
        true
    }

    /// An upper bound of the number of records of `shard` after `after`.
    open spec fn remaining(&self, shard: Seq<char>, after: Option<Seq<char>>) -> nat {
        arbitrary()
    }

    /// All shards that the stream describes, now or later, if they are finitely
    /// many and each of them is read to its end without waiting; `None` if the
    /// stream may stay open.
    open spec fn closed_shards(&self) -> Option<Set<Seq<char>>> {
        None
    }

    /// Describe the shards of the stream.
    fn describe_shards(&self) -> (shards: Vec<ShardMeta>)
        ensures
            self.may_describe(leader::nodes(shards@)),
            self.closed_shards() matches Some(u) ==> forall|i: int|
                0 <= i < shards@.len() ==> u.contains((#[trigger] leader::nodes(shards@)[i]).id),
    ;

    /// The records of `shard` after `after`, exclusive; `None` is the beginning.
    fn get_records(&self, shard: &ShardId, after: Option<SequenceNumber>) -> (batch: RecordBatch)
        ensures
            self.may_read(shard@, collections::optional_text(after), batch@),
            batch@.records.len() > 0 ==> self.remaining(shard@, Some(batch@.records.last().seq))
                < self.remaining(shard@, collections::optional_text(after)),
            self.closed_shards() is Some && batch@.records.len() == 0 ==> batch@.shard_end,
    ;
}

/// The checkpoints and completed shards of a lease table.
pub struct Progress {
    pub checkpoints: Map<Seq<char>, Seq<char>>,
    pub completed: Set<Seq<char>>,
}

impl Progress {
    /// The checkpoint of `shard`.
    pub open spec fn checkpoint_of(self, shard: Seq<char>) -> Option<Seq<char>> {
        if self.checkpoints.contains_key(shard) {
            Some(self.checkpoints[shard])
        } else {
            None
        }
    }
}

/// The lease table. An implementation says what it holds.
pub trait LeaseStore {
    /// What the table holds.
    open spec fn progress(&self) -> Progress {
        arbitrary()
    }

    /// Keep `seq` as the checkpoint of `shard`.
    fn checkpoint(&mut self, shard: &ShardId, seq: SequenceNumber)
        ensures
            final(self).progress() == (Progress {
                checkpoints: old(self).progress().checkpoints.insert(shard@, seq@),
                ..old(self).progress()
            }),
    ;

    /// The checkpoint of `shard`, if it has one.
    fn last_checkpoint(&self, shard: &ShardId) -> (r: Option<SequenceNumber>)
        ensures
            collections::optional_text(r) == self.progress().checkpoint_of(shard@),
    ;

    /// Mark `shard` as fully processed.
    fn mark_complete(&mut self, shard: &ShardId)
        ensures
            final(self).progress() == (Progress {
                completed: old(self).progress().completed.insert(shard@),
                ..old(self).progress()
            }),
    ;

    /// Is `shard` fully processed?
    fn is_complete(&self, shard: &ShardId) -> (r: bool)
        ensures
            r == self.progress().completed.contains(shard@),
    ;
}

/// A call of a record processor.
pub enum Event {
    Initialize(Seq<char>),
    Records(Seq<RecordModel>),
    ShardEnded(Seq<char>),
}

/// Business logic. An implementation says what it has been called with.
pub trait RecordProcessor {
    /// The calls made so far.
    open spec fn history(&self) -> Seq<Event> {
        arbitrary()
    }

    /// Reading of `shard` starts.
    fn initialize(&mut self, shard: &ShardId)
        ensures
            final(self).history() == old(self).history().push(Event::Initialize(shard@)),
    ;

    /// A batch of records, in sequence order.
    fn process_records(&mut self, records: &[Record])
        ensures
            final(self).history() == old(self).history().push(
                Event::Records(record_models(records@)),
            ),
    ;

    /// `shard` is closed and fully delivered.
    fn shard_ended(&mut self, shard: &ShardId)
        ensures
            final(self).history() == old(self).history().push(Event::ShardEnded(shard@)),
    ;

    /// The lease of `shard` was lost: nothing more of it is delivered here.
    fn lease_lost(&mut self, _shard: &ShardId) {
    }
}

/// A shard may be read: it is not complete, and all of its parents are.
pub open spec fn is_eligible(p: Progress, node: ShardNode) -> bool {
    &&& !p.completed.contains(node.id)
    &&& forall|i: int| 0 <= i < node.parents.len() ==> p.completed.contains(
        #[trigger] node.parents[i],
    )
}

/// The progress that one batch of `shard` makes: its last record is the
/// checkpoint, and the end of the shard completes it.
pub open spec fn after_batch(p: Progress, shard: Seq<char>, b: Batch) -> Progress {
    Progress {
        checkpoints: if b.records.len() > 0 {
            p.checkpoints.insert(shard, b.records.last().seq)
        } else {
            p.checkpoints
        },
        completed: if b.shard_end {
            p.completed.insert(shard)
        } else {
            p.completed
        },
    }
}

/// The progress that a series of batches of `shard` makes.
pub open spec fn after_reads(p: Progress, shard: Seq<char>, reads: Seq<Batch>) -> Progress
    decreases reads.len(),
{
    if reads.len() == 0 {
        p
    } else {
        after_batch(after_reads(p, shard, reads.drop_last()), shard, reads.last())
    }
}

/// The calls that one batch of `shard` leads to.
pub open spec fn batch_events(shard: Seq<char>, b: Batch) -> Seq<Event> {
    (if b.records.len() > 0 {
        seq![Event::Records(b.records)]
    } else {
        Seq::empty()
    }) + (if b.shard_end {
        seq![Event::ShardEnded(shard)]
    } else {
        Seq::empty()
    })
}

/// The calls that a series of batches of `shard` leads to.
pub open spec fn read_events(shard: Seq<char>, reads: Seq<Batch>) -> Seq<Event>
    decreases reads.len(),
{
    if reads.len() == 0 {
        Seq::empty()
    } else {
        read_events(shard, reads.drop_last()) + batch_events(shard, reads.last())
    }
}

/// The calls that one batch of `shard` leads to, read after `after`: records are
/// processed, then checkpointed; at the end of the shard, the processor is told,
/// then the shard is marked complete.
pub open spec fn batch_calls(shard: Seq<char>, after: Option<Seq<char>>, b: Batch) -> Seq<Call> {
    seq![Call::Read(shard, after, b)] + (if b.records.len() > 0 {
        seq![Call::Process(shard, b.records), Call::Checkpoint(shard, b.records.last().seq)]
    } else {
        Seq::empty()
    }) + (if b.shard_end {
        seq![Call::End(shard), Call::Complete(shard)]
    } else {
        Seq::empty()
    })
}

/// The calls that a series of batches of `shard` leads to.
pub open spec fn read_calls(p: Progress, shard: Seq<char>, reads: Seq<Batch>) -> Seq<Call>
    decreases reads.len(),
{
    if reads.len() == 0 {
        Seq::empty()
    } else {
        read_calls(p, shard, reads.drop_last()) + batch_calls(
            shard,
            after_reads(p, shard, reads.drop_last()).checkpoint_of(shard),
            reads.last(),
        )
    }
}

/// More is read after `b`: it held records and did not end the shard.
pub open spec fn goes_on(b: Batch) -> bool {
    b.records.len() > 0 && !b.shard_end
}

/// `reads` is a series of reads of `shard`, each after the checkpoint that the
/// one before it left.
pub open spec fn follows<S: StreamSource>(
    source: S,
    p: Progress,
    shard: Seq<char>,
    reads: Seq<Batch>,
) -> bool {
    forall|i: int|
        0 <= i < reads.len() ==> source.may_read(
            shard,
            after_reads(p, shard, reads.take(i)).checkpoint_of(shard),
            #[trigger] reads[i],
        )
}

/// `reads` drains `shard`: it goes on until a batch ends the shard or is empty.
pub open spec fn drains<S: StreamSource>(
    source: S,
    p: Progress,
    shard: Seq<char>,
    reads: Seq<Batch>,
) -> bool {
    &&& reads.len() > 0
    &&& follows(source, p, shard, reads)
    &&& forall|i: int| 0 <= i < reads.len() - 1 ==> goes_on(#[trigger] reads[i])
    &&& !goes_on(reads.last())
}

/// One sweep over a described graph: each node that is eligible when its turn
/// comes is started and drained, the others are left alone.
pub open spec fn sweeps<S: StreamSource>(
    source: S,
    graph: Seq<ShardNode>,
    p: Progress,
    calls: Seq<Call>,
    q: Progress,
) -> bool
    decreases graph.len(),
{
    if graph.len() == 0 {
        calls == Seq::<Call>::empty() && q == p
    } else {
        exists|before: Seq<Call>, mid: Progress, reads: Seq<Batch>|
            {
                &&& sweeps(source, graph.drop_last(), p, before, mid)
                &&& #[trigger] visits(source, graph.last(), mid, reads, before, calls, q)
            }
    }
}

/// What happens when the turn of a node comes.
pub open spec fn visits<S: StreamSource>(
    source: S,
    node: ShardNode,
    p: Progress,
    reads: Seq<Batch>,
    before: Seq<Call>,
    calls: Seq<Call>,
    q: Progress,
) -> bool {
    if is_eligible(p, node) {
        &&& drains(source, p, node.id, reads)
        &&& calls == before.push(Call::Start(node)) + read_calls(p, node.id, reads)
        &&& q == after_reads(p, node.id, reads)
    } else {
        calls == before && q == p
    }
}

/// Every node of a graph is complete.
pub open spec fn all_complete(graph: Seq<ShardNode>, p: Progress) -> bool {
    forall|i: int| 0 <= i < graph.len() ==> p.completed.contains((#[trigger] graph[i]).id)
}

/// Some node of a graph is eligible.
pub open spec fn some_eligible(graph: Seq<ShardNode>, p: Progress) -> bool {
    exists|i: int| 0 <= i < graph.len() && is_eligible(p, #[trigger] graph[i])
}

/// What one sweep came to.
#[derive(Clone, Copy, Debug, PartialEq, Eq, Structural)]
pub enum Sweep {
    /// Every described shard was complete already.
    Complete,
    /// Some shard was read.
    Progressed,
    /// No shard was eligible: the described graph is inconsistent.
    Stuck,
}

/// The single-worker scheduler.
pub struct Scheduler<S: StreamSource, L: LeaseStore> {
    desk: Desk<S, L>,
}

impl<S: StreamSource, L: LeaseStore> Scheduler<S, L> {
    /// The stream.
    pub closed spec fn source(&self) -> S {
        self.desk.source()
    }

    /// The progress that the lease table holds.
    pub closed spec fn progress(&self) -> Progress {
        self.desk.progress()
    }

    /// The calls that were made so far, in order.
    pub closed spec fn calls(&self) -> Seq<Call> {
        self.desk.calls()
    }

    /// A scheduler over a stream and a lease table.
    pub fn new(source: S, leases: L) -> (s: Self)
        ensures
            s.source() == source,
            s.progress() == leases.progress(),
            s.calls() == Seq::<Call>::empty(),
    {
        Scheduler { desk: Desk::new(source, leases) }
    }

    /// Is the shard not complete, with every one of its parents complete?
    fn eligible(&self, meta: &ShardMeta) -> (r: bool)
        ensures
            r == is_eligible(self.progress(), meta@),
    {
        if self.desk.is_complete(&meta.id) {
            return false;
        }
        let mut i: usize = 0;
        while i < meta.parents.len()
            invariant
                i <= meta.parents.len(),
                forall|k: int| 0 <= k < i ==> self.progress().completed.contains(
                    #[trigger] meta@.parents[k],
                ),
            decreases meta.parents.len() - i,
        {
            assert(meta@.parents[i as int] == meta.parents@[i as int]@);
            if !self.desk.is_complete(&meta.parents[i]) {
                return false;
            }
            i = i + 1;
        }
        true
    }

    /// Deliver the records of a started shard in sequence order, with a
    /// checkpoint after each batch, until it ends or has no more for now.
    fn drain<P: RecordProcessor>(&mut self, shard: &ShardId, processor: &mut P) -> (reads: Ghost<
        Seq<Batch>,
    >)
        ensures
            final(self).source() == old(self).source(),
            drains(old(self).source(), old(self).progress(), shard@, reads@),
            final(self).progress() == after_reads(old(self).progress(), shard@, reads@),
            final(self).calls() == old(self).calls() + read_calls(
                old(self).progress(),
                shard@,
                reads@,
            ),
            final(processor).history() == old(processor).history() + desk::heard(
                read_calls(old(self).progress(), shard@, reads@),
            ),
            old(self).source().closed_shards() is Some ==> final(self).progress().completed.contains(
                shard@,
            ),
    {
        let ghost mut reads: Seq<Batch> = Seq::empty();
        let ghost p = self.progress();
        assert(self.calls() =~= self.calls() + read_calls(p, shard@, reads));
        assert(processor.history() =~= processor.history() + read_events(shard@, reads));
        loop
            invariant
                self.source() == old(self).source(),
                p == old(self).progress(),
                follows(self.source(), p, shard@, reads),
                forall|i: int| 0 <= i < reads.len() ==> goes_on(#[trigger] reads[i]),
                self.progress() == after_reads(p, shard@, reads),
                self.calls() == old(self).calls() + read_calls(p, shard@, reads),
                processor.history() == old(processor).history() + read_events(shard@, reads),
            decreases self.source().remaining(shard@, self.progress().checkpoint_of(shard@)),
        {
            let after = self.desk.last_checkpoint(shard);
            let ghost position = collections::optional_text(after);
            let batch = self.desk.read(shard, after);
            let ghost old_reads = reads;
            let ghost b = batch@;
            proof {
                reads = old_reads.push(b);
                lemma_follows_push(self.source(), p, shard@, old_reads, b);
                assert(reads.drop_last() =~= old_reads);
                lemma_heard_reads(p, shard@, reads);
            }
            if batch.records.len() > 0 {
                self.desk.process(processor, shard, batch.records.as_slice());
                let last = batch.records[batch.records.len() - 1].seq.clone();
                assert(b.records.last().seq == last@);
                self.desk.checkpoint(shard, last);
            }
            if batch.shard_end {
                self.desk.end(processor, shard);
                self.desk.complete(shard);
                assert(self.calls() =~= old(self).calls() + read_calls(p, shard@, reads));
                assert(processor.history() =~= old(processor).history() + read_events(
                    shard@,
                    reads,
                ));
                assert forall|i: int| 0 <= i < reads.len() - 1 implies goes_on(
                    #[trigger] reads[i],
                ) by {
                    assert(reads[i] == old_reads[i]);
                }
                return Ghost(reads);
            }
            assert(self.calls() =~= old(self).calls() + read_calls(p, shard@, reads));
            assert(processor.history() =~= old(processor).history() + read_events(shard@, reads));
            if batch.records.len() == 0 {
                assert forall|i: int| 0 <= i < reads.len() - 1 implies goes_on(
                    #[trigger] reads[i],
                ) by {
                    assert(reads[i] == old_reads[i]);
                }
                assert(self.progress() == after_reads(p, shard@, reads));
                return Ghost(reads);
            }
            assert(self.progress().checkpoint_of(shard@) == Some(b.records.last().seq));
        }
    }

    /// Visit every described shard once, in the order described.
    fn pass<P: RecordProcessor>(&mut self, shards: &Vec<ShardMeta>, processor: &mut P) -> (r: bool)
        ensures
            final(self).source() == old(self).source(),
            exists|calls: Seq<Call>|
                {
                    &&& #[trigger] sweeps(
                        old(self).source(),
                        leader::nodes(shards@),
                        old(self).progress(),
                        calls,
                        final(self).progress(),
                    )
                    &&& final(self).calls() == old(self).calls() + calls
                    &&& final(processor).history() == old(processor).history() + desk::heard(calls)
                    &&& r == (calls.len() > 0)
                },
            old(self).progress().completed.subset_of(final(self).progress().completed),
            r && old(self).source().closed_shards() is Some ==> some_completed(
                leader::nodes(shards@),
                old(self).progress(),
                final(self).progress(),
            ),
    {
        let ghost g = leader::nodes(shards@);
        let ghost p = self.progress();
        let ghost source = self.source();
        let mut progressed = false;
        let mut i: usize = 0;
        let ghost mut calls: Seq<Call> = Seq::empty();
        assert(g.take(0) =~= Seq::empty());
        assert(self.calls() =~= self.calls() + calls);
        assert(processor.history() =~= processor.history() + desk::heard(calls));
        while i < shards.len()
            invariant
                i <= shards.len(),
                g == leader::nodes(shards@),
                p == old(self).progress(),
                source == old(self).source(),
                self.source() == source,
                sweeps(source, g.take(i as int), p, calls, self.progress()),
                self.calls() == old(self).calls() + calls,
                processor.history() == old(processor).history() + desk::heard(calls),
                p.completed.subset_of(self.progress().completed),
                progressed == (calls.len() > 0),
                progressed && source.closed_shards() is Some ==> some_completed(
                    g,
                    p,
                    self.progress(),
                ),
            decreases shards.len() - i,
        {
            let ghost mid = self.progress();
            let ghost before = calls;
            let ghost node = g[i as int];
            assert(node == shards@[i as int]@);
            assert(g.take(i + 1).drop_last() =~= g.take(i as int));
            assert(g.take(i + 1).last() == node);
            if self.eligible(&shards[i]) {
                progressed = true;
                self.desk.start(processor, &shards[i]);
                let Ghost(reads) = self.drain(&shards[i].id, processor);
                proof {
                    let tail = read_calls(mid, node.id, reads);
                    calls = before.push(Call::Start(node)) + tail;
                    assert(self.calls() =~= old(self).calls() + calls);
                    lemma_heard_concat(before.push(Call::Start(node)), tail);
                    assert(before.push(Call::Start(node)).drop_last() =~= before);
                    assert(processor.history() =~= old(processor).history() + desk::heard(calls));
                    assert(visits(source, node, mid, reads, before, calls, self.progress()));
                    lemma_reads_complete_only(mid, node.id, reads);
                    assert(!p.completed.contains(g[i as int].id));
                    if source.closed_shards() is Some {
                        assert(some_completed(g, p, self.progress()));
                    }
                }
            } else {
                proof {
                    assert(visits(
                        source,
                        node,
                        mid,
                        Seq::empty(),
                        before,
                        calls,
                        self.progress(),
                    ));
                }
            }
            i = i + 1;
        }
        assert(g.take(i as int) =~= g);
        progressed
    }

    /// Describe the stream and read every shard that is eligible in turn.
    pub fn sweep<P: RecordProcessor>(&mut self, processor: &mut P) -> (r: Sweep)
        ensures
            final(self).source() == old(self).source(),
            exists|graph: Seq<ShardNode>, calls: Seq<Call>|
                {
                    &&& #[trigger] swept(
                        old(self).source(),
                        graph,
                        old(self).progress(),
                        calls,
                        final(self).progress(),
                        r,
                    )
                    &&& final(self).calls() == old(self).calls() + calls
                    &&& final(processor).history() == old(processor).history() + desk::heard(calls)
                },
    {
        let shards = self.desk.describe_shards();
        let ghost g = leader::nodes(shards@);
        let ghost p = self.progress();
        if self.none_left(&shards) {
            proof {
                let calls = Seq::<Call>::empty();
                lemma_complete_sweep(self.source(), g, self.progress());
                assert(self.calls() =~= self.calls() + calls);
                assert(processor.history() =~= processor.history() + desk::heard(calls));
                assert(swept(self.source(), g, p, calls, p, Sweep::Complete));
            }
            return Sweep::Complete;
        }
        let ghost called = self.calls();
        let ghost seen = processor.history();
        let r = if self.pass(&shards, processor) {
            Sweep::Progressed
        } else {
            Sweep::Stuck
        };
        proof {
            let calls = choose|calls: Seq<Call>|
                {
                    &&& #[trigger] sweeps(self.source(), g, p, calls, self.progress())
                    &&& self.calls() == called + calls
                    &&& processor.history() == seen + desk::heard(calls)
                    &&& (r is Progressed) == (calls.len() > 0)
                };
            assert(swept(self.source(), g, p, calls, self.progress(), r));
        }
        r
    }

    /// Are all of the described shards complete?
    fn none_left(&self, shards: &Vec<ShardMeta>) -> (r: bool)
        ensures
            r == all_complete(leader::nodes(shards@), self.progress()),
    {
        let ghost g = leader::nodes(shards@);
        let mut i: usize = 0;
        while i < shards.len()
            invariant
                i <= shards.len(),
                g == leader::nodes(shards@),
                forall|k: int| 0 <= k < i ==> self.progress().completed.contains(
                    (#[trigger] g[k]).id,
                ),
            decreases shards.len() - i,
        {
            assert(g[i as int] == shards@[i as int]@);
            if !self.desk.is_complete(&shards[i].id) {
                return false;
            }
            i = i + 1;
        }
        true
    }

    /// Drain all shards of a closed stream in dependency order: sweep until
    /// every described shard is complete, or until none is eligible. The graph
    /// is described anew for every sweep, and may change.
    ///
    /// On a stream that stays open this would poll without end; there, call
    /// [`Scheduler::sweep`] and wait between sweeps.
    pub fn run<P: RecordProcessor>(&mut self, processor: &mut P)
        requires
            old(self).source().closed_shards() matches Some(u) && u.finite(),
        ensures
            final(self).source() == old(self).source(),
            exists|calls: Seq<Call>|
                {
                    &&& #[trigger] runs(
                        old(self).source(),
                        old(self).progress(),
                        calls,
                        final(self).progress(),
                    )
                    &&& final(self).calls() == old(self).calls() + calls
                    &&& final(processor).history() == old(processor).history() + desk::heard(calls)
                },
            exists|graph: Seq<ShardNode>| #[trigger]
                old(self).source().may_describe(graph) && (all_complete(
                    graph,
                    final(self).progress(),
                ) || !some_eligible(graph, final(self).progress())),
    {
        let ghost u = self.source().closed_shards()->0;
        let ghost p = self.progress();
        let ghost source = self.source();
        let ghost mut calls: Seq<Call> = Seq::empty();
        assert(self.calls() =~= self.calls() + calls);
        assert(processor.history() =~= processor.history() + desk::heard(calls));
        assert(runs_in(source, 0, p, calls, p));
        loop
            invariant
                source == old(self).source(),
                self.source() == source,
                source.closed_shards() == Some(u),
                u.finite(),
                p == old(self).progress(),
                runs(source, p, calls, self.progress()),
                self.calls() == old(self).calls() + calls,
                processor.history() == old(processor).history() + desk::heard(calls),
            decreases u.difference(self.progress().completed).len(),
        {
            let ghost before = calls;
            let ghost mid = self.progress();
            let ghost called = self.calls();
            let ghost seen = processor.history();
            let r = self.sweep(processor);
            let ghost (graph, new) = choose|graph: Seq<ShardNode>, new: Seq<Call>|
                {
                    &&& #[trigger] swept(source, graph, mid, new, self.progress(), r)
                    &&& self.calls() == called + new
                    &&& processor.history() == seen + desk::heard(new)
                };
            proof {
                calls = before + new;
                lemma_heard_concat(before, new);
                assert(self.calls() =~= old(self).calls() + calls);
                assert(processor.history() =~= old(processor).history() + desk::heard(calls));
                lemma_runs_extend(source, p, before, graph, mid, new, self.progress());
                lemma_quiet_sweep(source, graph, mid, new, self.progress());
            }
            match r {
                Sweep::Progressed => {
                    proof {
                        lemma_fewer_left(u, graph, mid, self.progress());
                    }
                },
                _ => {
                    assert(source.may_describe(graph) && (all_complete(graph, self.progress())
                        || !some_eligible(graph, self.progress())));
                    return ;
                },
            }
        }
    }
}

/// One sweep, and what it came to.
pub open spec fn swept<S: StreamSource>(
    source: S,
    graph: Seq<ShardNode>,
    p: Progress,
    calls: Seq<Call>,
    q: Progress,
    r: Sweep,
) -> bool {
    &&& source.may_describe(graph)
    &&& source.closed_shards() matches Some(u) ==> forall|i: int|
        0 <= i < graph.len() ==> u.contains((#[trigger] graph[i]).id)
    &&& sweeps(source, graph, p, calls, q)
    &&& r == (if all_complete(graph, p) {
        Sweep::Complete
    } else if calls.len() > 0 {
        Sweep::Progressed
    } else {
        Sweep::Stuck
    })
    &&& p.completed.subset_of(q.completed)
    &&& r is Progressed && source.closed_shards() is Some ==> some_completed(graph, p, q)
}

/// Some shard of a graph was completed.
pub open spec fn some_completed(graph: Seq<ShardNode>, p: Progress, q: Progress) -> bool {
    exists|k: int|
        0 <= k < graph.len() && !p.completed.contains((#[trigger] graph[k]).id)
            && q.completed.contains(graph[k].id)
}

proof fn lemma_fewer_left(
    all: Set<Seq<char>>,
    graph: Seq<ShardNode>,
    p: Progress,
    q: Progress,
)
    requires
        all.finite(),
        forall|i: int| 0 <= i < graph.len() ==> all.contains((#[trigger] graph[i]).id),
        p.completed.subset_of(q.completed),
        some_completed(graph, p, q),
    ensures
        all.difference(q.completed).len() < all.difference(p.completed).len(),
{
    let k = choose|k: int|
        0 <= k < graph.len() && !p.completed.contains((#[trigger] graph[k]).id)
            && q.completed.contains(graph[k].id);
    let id = graph[k].id;
    let left = all.difference(p.completed);
    assert(left.contains(id));
    assert(all.difference(q.completed).subset_of(left.remove(id)));
    vstd::set_lib::lemma_len_subset(all.difference(q.completed), left.remove(id));
}

proof fn lemma_heard_concat(a: Seq<Call>, b: Seq<Call>)
    ensures
        desk::heard(a + b) == desk::heard(a) + desk::heard(b),
    decreases b.len(),
{
    if b.len() == 0 {
        assert(a + b =~= a);
        assert(desk::heard(a) + desk::heard(b) =~= desk::heard(a));
    } else {
        assert((a + b).drop_last() =~= a + b.drop_last());
        lemma_heard_concat(a, b.drop_last());
        assert(desk::heard(a + b) =~= desk::heard(a) + desk::heard(b));
    }
}

proof fn lemma_heard_pair(a: Call, b: Call)
    ensures
        desk::heard(seq![a, b]) == desk::told(a) + desk::told(b),
        desk::heard(seq![a]) == desk::told(a),
{
    reveal_with_fuel(desk::heard, 3);
    assert(seq![a, b].drop_last() =~= seq![a]);
    assert(seq![a].drop_last() =~= Seq::empty());
    assert(desk::heard(seq![a]) =~= desk::told(a));
}

/// The processor hears of a batch what the batch holds for it.
proof fn lemma_heard_batch(shard: Seq<char>, after: Option<Seq<char>>, b: Batch)
    ensures
        desk::heard(batch_calls(shard, after, b)) == batch_events(shard, b),
{
    let first = seq![Call::Read(shard, after, b)];
    let second: Seq<Call> = if b.records.len() > 0 {
        seq![Call::Process(shard, b.records), Call::Checkpoint(shard, b.records.last().seq)]
    } else {
        Seq::empty()
    };
    let third: Seq<Call> = if b.shard_end {
        seq![Call::End(shard), Call::Complete(shard)]
    } else {
        Seq::empty()
    };
    lemma_heard_concat(first + second, third);
    lemma_heard_concat(first, second);
    lemma_heard_pair(Call::Read(shard, after, b), Call::Complete(shard));
    lemma_heard_pair(
        Call::Process(shard, b.records),
        Call::Checkpoint(shard, b.records.last().seq),
    );
    lemma_heard_pair(Call::End(shard), Call::Complete(shard));
    assert(desk::heard(batch_calls(shard, after, b)) =~= batch_events(shard, b));
}

proof fn lemma_heard_reads(p: Progress, shard: Seq<char>, reads: Seq<Batch>)
    ensures
        desk::heard(read_calls(p, shard, reads)) == read_events(shard, reads),
    decreases reads.len(),
{
    if reads.len() > 0 {
        let rest = reads.drop_last();
        let after = after_reads(p, shard, rest).checkpoint_of(shard);
        lemma_heard_reads(p, shard, rest);
        lemma_heard_concat(read_calls(p, shard, rest), batch_calls(shard, after, reads.last()));
        lemma_heard_batch(shard, after, reads.last());
    }
}

/// `n` sweeps, one after the other, each over a graph that the stream described.
pub open spec fn runs_in<S: StreamSource>(
    source: S,
    n: nat,
    p: Progress,
    calls: Seq<Call>,
    q: Progress,
) -> bool
    decreases n,
{
    if n == 0 {
        calls == Seq::<Call>::empty() && q == p
    } else {
        exists|before: Seq<Call>, graph: Seq<ShardNode>, mid: Progress, new: Seq<Call>|
            {
                &&& runs_in(source, (n - 1) as nat, p, before, mid)
                &&& #[trigger] extends(source, graph, mid, before, new, calls, q)
            }
    }
}

/// A sweep that adds `new` to the calls before it.
pub open spec fn extends<S: StreamSource>(
    source: S,
    graph: Seq<ShardNode>,
    mid: Progress,
    before: Seq<Call>,
    new: Seq<Call>,
    calls: Seq<Call>,
    q: Progress,
) -> bool {
    source.may_describe(graph) && sweeps(source, graph, mid, new, q) && calls == before + new
}

/// Some number of sweeps.
pub open spec fn runs<S: StreamSource>(
    source: S,
    p: Progress,
    calls: Seq<Call>,
    q: Progress,
) -> bool {
    exists|n: nat| #[trigger] runs_in(source, n, p, calls, q)
}

proof fn lemma_runs_extend<S: StreamSource>(
    source: S,
    p: Progress,
    before: Seq<Call>,
    graph: Seq<ShardNode>,
    mid: Progress,
    new: Seq<Call>,
    q: Progress,
)
    requires
        runs(source, p, before, mid),
        source.may_describe(graph),
        sweeps(source, graph, mid, new, q),
    ensures
        runs(source, p, before + new, q),
{
    let n = choose|n: nat| #[trigger] runs_in(source, n, p, before, mid);
    assert(extends(source, graph, mid, before, new, before + new, q));
    assert(runs_in(source, n + 1, p, before + new, q));
}

/// A sweep over a complete graph does nothing.
proof fn lemma_complete_sweep<S: StreamSource>(source: S, graph: Seq<ShardNode>, p: Progress)
    requires
        all_complete(graph, p),
    ensures
        sweeps(source, graph, p, Seq::empty(), p),
    decreases graph.len(),
{
    if graph.len() > 0 {
        assert(p.completed.contains(graph[graph.len() - 1].id));
        assert forall|i: int| 0 <= i < graph.drop_last().len() implies p.completed.contains(
            (#[trigger] graph.drop_last()[i]).id,
        ) by {
            assert(graph.drop_last()[i] == graph[i]);
        }
        lemma_complete_sweep(source, graph.drop_last(), p);
        assert(visits(source, graph.last(), p, Seq::empty(), Seq::empty(), Seq::empty(), p));
    }
}

/// A sweep without calls changes nothing and found no eligible shard.
proof fn lemma_quiet_sweep<S: StreamSource>(
    source: S,
    graph: Seq<ShardNode>,
    p: Progress,
    calls: Seq<Call>,
    q: Progress,
)
    requires
        sweeps(source, graph, p, calls, q),
    ensures
        calls.len() == 0 ==> q == p && !some_eligible(graph, p),
        all_complete(graph, p) ==> calls.len() == 0,
    decreases graph.len(),
{
    if graph.len() > 0 {
        let (before, mid, reads) = choose|before: Seq<Call>, mid: Progress, reads: Seq<Batch>|
            {
                &&& sweeps(source, graph.drop_last(), p, before, mid)
                &&& #[trigger] visits(source, graph.last(), mid, reads, before, calls, q)
            };
        lemma_quiet_sweep(source, graph.drop_last(), p, before, mid);
        if all_complete(graph, p) {
            assert(p.completed.contains(graph[graph.len() - 1].id));
            assert forall|i: int| 0 <= i < graph.drop_last().len() implies p.completed.contains(
                (#[trigger] graph.drop_last()[i]).id,
            ) by {
                assert(graph.drop_last()[i] == graph[i]);
            }
        }
        if calls.len() == 0 {
            assert forall|i: int| 0 <= i < graph.len() implies !is_eligible(
                p,
                #[trigger] graph[i],
            ) by {
                if i < graph.len() - 1 {
                    assert(graph.drop_last()[i] == graph[i]);
                }
            }
        }
    }
}

proof fn lemma_follows_push<S: StreamSource>(
    source: S,
    p: Progress,
    shard: Seq<char>,
    reads: Seq<Batch>,
    b: Batch,
)
    requires
        follows(source, p, shard, reads),
        source.may_read(shard, after_reads(p, shard, reads).checkpoint_of(shard), b),
    ensures
        follows(source, p, shard, reads.push(b)),
{
    let t = reads.push(b);
    assert forall|i: int| 0 <= i < t.len() implies source.may_read(
        shard,
        after_reads(p, shard, t.take(i)).checkpoint_of(shard),
        #[trigger] t[i],
    ) by {
        if i < reads.len() {
            assert(t.take(i) =~= reads.take(i));
            assert(t[i] == reads[i]);
        } else {
            assert(t.take(i) =~= reads);
        }
    }
}

/// Reading a shard changes nothing of other shards, and completes no shard but
/// that one.
proof fn lemma_reads_complete_only(p: Progress, shard: Seq<char>, reads: Seq<Batch>)
    ensures
        p.completed.subset_of(after_reads(p, shard, reads).completed),
        after_reads(p, shard, reads).completed.subset_of(p.completed.insert(shard)),
        forall|s: Seq<char>| s != shard ==> #[trigger] after_reads(p, shard, reads).checkpoint_of(s)
            == p.checkpoint_of(s),
    decreases reads.len(),
{
    if reads.len() > 0 {
        lemma_reads_complete_only(p, shard, reads.drop_last());
        assert forall|s: Seq<char>| s != shard implies #[trigger] after_reads(
            p,
            shard,
            reads,
        ).checkpoint_of(s) == p.checkpoint_of(s) by {
            assert(after_reads(p, shard, reads.drop_last()).checkpoint_of(s) == p.checkpoint_of(s));
        }
    }
}

/// The progress after a call.
pub open spec fn after_call(p: Progress, c: Call) -> Progress {
    match c {
        Call::Checkpoint(shard, seq) => Progress {
            checkpoints: p.checkpoints.insert(shard, seq),
            ..p
        },
        Call::Complete(shard) => Progress { completed: p.completed.insert(shard), ..p },
        _ => p,
    }
}

/// The progress after a series of calls.
pub open spec fn after_calls(p: Progress, calls: Seq<Call>) -> Progress
    decreases calls.len(),
{
    if calls.len() == 0 {
        p
    } else {
        after_call(after_calls(p, calls.drop_last()), calls.last())
    }
}

/// The call at `i` is in its place, where the lease table holds `now` when it is
/// made.
pub open spec fn is_in_place(now: Progress, calls: Seq<Call>, i: int) -> bool {
    match calls[i] {
        // the shard is not complete, and all of its parents are
        Call::Start(node) => is_eligible(now, node),
        // from the checkpoint on; what is read is processed next, and the end of
        // the shard follows
        Call::Read(shard, after, b) => {
            let k = if b.records.len() > 0 {
                i + 3
            } else {
                i + 1
            };
            &&& after == now.checkpoint_of(shard)
            &&& !now.completed.contains(shard)
            &&& b.records.len() > 0 ==> i + 1 < calls.len() && calls[i + 1] == Call::Process(
                shard,
                b.records,
            )
            &&& b.shard_end ==> k < calls.len() && calls[k] == Call::End(shard)
        },
        // right before its checkpoint
        Call::Process(shard, records) => {
            &&& records.len() > 0
            &&& i + 1 < calls.len()
            &&& calls[i + 1] == Call::Checkpoint(shard, records.last().seq)
        },
        // right after the records
        Call::Checkpoint(shard, seq) => {
            &&& i > 0
            &&& calls[i - 1] matches Call::Process(s, records) && s == shard && records.len() > 0
                && records.last().seq == seq
        },
        // right before the shard is marked complete
        Call::End(shard) => i + 1 < calls.len() && calls[i + 1] == Call::Complete(shard),
        Call::Complete(shard) => i > 0 && calls[i - 1] == Call::End(shard),
    }
}

/// Every call is in its place.
pub open spec fn in_order(p: Progress, calls: Seq<Call>) -> bool {
    forall|i: int|
        0 <= i < calls.len() ==> #[trigger] is_in_place(after_calls(p, calls.take(i)), calls, i)
}

proof fn lemma_after_concat(p: Progress, a: Seq<Call>, b: Seq<Call>)
    ensures
        after_calls(p, a + b) == after_calls(after_calls(p, a), b),
    decreases b.len(),
{
    if b.len() == 0 {
        assert(a + b =~= a);
    } else {
        assert((a + b).drop_last() =~= a + b.drop_last());
        lemma_after_concat(p, a, b.drop_last());
    }
}

proof fn lemma_after_take(p: Progress, calls: Seq<Call>, i: int)
    requires
        0 <= i < calls.len(),
    ensures
        after_calls(p, calls.take(i + 1)) == after_call(after_calls(p, calls.take(i)), calls[i]),
{
    assert(calls.take(i + 1).drop_last() =~= calls.take(i));
}

/// Series of calls that are in order are so together.
proof fn lemma_order_append(p: Progress, a: Seq<Call>, b: Seq<Call>)
    requires
        in_order(p, a),
        in_order(after_calls(p, a), b),
    ensures
        in_order(p, a + b),
        after_calls(p, a + b) == after_calls(after_calls(p, a), b),
{
    let c = a + b;
    lemma_after_concat(p, a, b);
    assert forall|i: int| 0 <= i < c.len() implies #[trigger] is_in_place(
        after_calls(p, c.take(i)),
        c,
        i,
    ) by {
        if i < a.len() {
            assert(c.take(i) =~= a.take(i));
            assert(is_in_place(after_calls(p, a.take(i)), a, i));
        } else {
            let j = i - a.len();
            assert(c.take(i) =~= a + b.take(j));
            lemma_after_concat(p, a, b.take(j));
            assert(is_in_place(after_calls(after_calls(p, a), b.take(j)), b, j));
        }
    }
}

proof fn lemma_batch_in_order(p: Progress, shard: Seq<char>, b: Batch)
    requires
        !p.completed.contains(shard),
    ensures
        in_order(p, batch_calls(shard, p.checkpoint_of(shard), b)),
        after_calls(p, batch_calls(shard, p.checkpoint_of(shard), b)) == after_batch(p, shard, b),
{
    let c = batch_calls(shard, p.checkpoint_of(shard), b);
    let n = c.len() as int;
    assert(c.take(0) =~= Seq::empty());
    lemma_after_take(p, c, 0);
    if n > 1 {
        lemma_after_take(p, c, 1);
        lemma_after_take(p, c, 2);
    }
    if n > 3 {
        lemma_after_take(p, c, 3);
        lemma_after_take(p, c, 4);
    }
    assert(c.take(n) =~= c);
}

proof fn lemma_reads_in_order(p: Progress, shard: Seq<char>, reads: Seq<Batch>)
    requires
        !p.completed.contains(shard),
        forall|i: int| 0 <= i < reads.len() - 1 ==> goes_on(#[trigger] reads[i]),
    ensures
        in_order(p, read_calls(p, shard, reads)),
        after_calls(p, read_calls(p, shard, reads)) == after_reads(p, shard, reads),
        (reads.len() > 0 ==> !reads.last().shard_end) ==> !after_reads(
            p,
            shard,
            reads,
        ).completed.contains(shard),
    decreases reads.len(),
{
    if reads.len() > 0 {
        let rest = reads.drop_last();
        assert forall|i: int| 0 <= i < rest.len() - 1 implies goes_on(#[trigger] rest[i]) by {
            assert(rest[i] == reads[i]);
        }
        if rest.len() > 0 {
            assert(goes_on(reads[reads.len() - 2]));
            assert(rest.last() == reads[reads.len() - 2]);
        }
        lemma_reads_in_order(p, shard, rest);
        let mid = after_reads(p, shard, rest);
        lemma_batch_in_order(mid, shard, reads.last());
        lemma_order_append(
            p,
            read_calls(p, shard, rest),
            batch_calls(shard, mid.checkpoint_of(shard), reads.last()),
        );
    }
}

/// In a sweep, over a stream that may stay open, a shard is started only while
/// it is not complete and all of its parents are, each read goes on from the
/// checkpoint, and every batch is processed right before its checkpoint.
pub proof fn law_every_call_of_a_sweep_is_in_its_place<S: StreamSource>(
    source: S,
    graph: Seq<ShardNode>,
    p: Progress,
    calls: Seq<Call>,
    q: Progress,
)
    requires
        sweeps(source, graph, p, calls, q),
    ensures
        in_order(p, calls),
        q == after_calls(p, calls),
    decreases graph.len(),
{
    if graph.len() > 0 {
        let (before, mid, reads) = choose|before: Seq<Call>, mid: Progress, reads: Seq<Batch>|
            {
                &&& sweeps(source, graph.drop_last(), p, before, mid)
                &&& #[trigger] visits(source, graph.last(), mid, reads, before, calls, q)
            };
        law_every_call_of_a_sweep_is_in_its_place(source, graph.drop_last(), p, before, mid);
        let node = graph.last();
        if is_eligible(mid, node) {
            let start = seq![Call::Start(node)];
            let tail = read_calls(mid, node.id, reads);
            assert(start.take(0) =~= Seq::empty());
            assert(start.drop_last() =~= Seq::empty());
            assert(after_calls(mid, start.drop_last()) == mid);
            assert(after_calls(mid, start) == mid);
            assert(in_order(mid, start));
            lemma_reads_in_order(mid, node.id, reads);
            lemma_order_append(mid, start, tail);
            lemma_order_append(p, before, start + tail);
            assert(calls =~= before + (start + tail));
        }
    }
}

proof fn lemma_runs_in_order<S: StreamSource>(
    source: S,
    n: nat,
    p: Progress,
    calls: Seq<Call>,
    q: Progress,
)
    requires
        runs_in(source, n, p, calls, q),
    ensures
        in_order(p, calls),
        q == after_calls(p, calls),
    decreases n,
{
    if n > 0 {
        let (before, graph, mid, new) = choose|
            before: Seq<Call>,
            graph: Seq<ShardNode>,
            mid: Progress,
            new: Seq<Call>,
        |
            {
                &&& runs_in(source, (n - 1) as nat, p, before, mid)
                &&& #[trigger] extends(source, graph, mid, before, new, calls, q)
            };
        lemma_runs_in_order(source, (n - 1) as nat, p, before, mid);
        law_every_call_of_a_sweep_is_in_its_place(source, graph, mid, new, q);
        lemma_order_append(p, before, new);
    }
}

/// Whatever the stream, the lease table and the processor do: a shard is started
/// only while it is not complete and all of its parents are; each read goes on
/// from the checkpoint; a batch is processed right before its checkpoint is
/// written; the end of a shard is told right before the shard is marked
/// complete, and it is not read again.
pub proof fn law_every_call_is_in_its_place<S: StreamSource>(
    source: S,
    p: Progress,
    calls: Seq<Call>,
    q: Progress,
)
    requires
        runs(source, p, calls, q),
    ensures
        in_order(p, calls),
        q == after_calls(p, calls),
{
    let n = choose|n: nat| #[trigger] runs_in(source, n, p, calls, q);
    lemma_runs_in_order(source, n, p, calls, q);
}

/// `shard` was marked complete among the first `n` calls.
pub open spec fn ended_within(calls: Seq<Call>, n: int, shard: Seq<char>) -> bool {
    exists|j: int| 0 <= j < n && #[trigger] calls[j] == Call::Complete(shard)
}

proof fn lemma_completed_calls(p: Progress, calls: Seq<Call>, n: int, s: Seq<char>)
    requires
        0 <= n <= calls.len(),
    ensures
        after_calls(p, calls.take(n)).completed.contains(s) <==> p.completed.contains(s)
            || ended_within(calls, n, s),
    decreases n,
{
    if n == 0 {
        assert(calls.take(0) =~= Seq::empty());
    } else {
        lemma_completed_calls(p, calls, n - 1, s);
        lemma_after_take(p, calls, n - 1);
        if ended_within(calls, n, s) {
            let j = choose|j: int| 0 <= j < n && #[trigger] calls[j] == Call::Complete(s);
            if j < n - 1 {
                assert(ended_within(calls, n - 1, s));
            }
        }
    }
}

/// No shard is touched before every one of its parents has ended, unless the
/// parent was complete already; and exactly the shards that ended are added to
/// the completed ones.
pub proof fn law_parents_end_before_children_start<S: StreamSource>(
    source: S,
    p: Progress,
    calls: Seq<Call>,
    q: Progress,
    i: int,
    shard: Seq<char>,
)
    requires
        runs(source, p, calls, q),
        0 <= i < calls.len(),
    ensures
        calls[i] matches Call::Start(node) ==> forall|k: int|
            0 <= k < node.parents.len() ==> p.completed.contains(#[trigger] node.parents[k])
                || ended_within(calls, i, node.parents[k]),
        q.completed.contains(shard) <==> p.completed.contains(shard) || ended_within(
            calls,
            calls.len() as int,
            shard,
        ),
{
    law_every_call_is_in_its_place(source, p, calls, q);
    assert(is_in_place(after_calls(p, calls.take(i)), calls, i));
    if let Call::Start(node) = calls[i] {
        assert forall|k: int| 0 <= k < node.parents.len() implies p.completed.contains(
            #[trigger] node.parents[k],
        ) || ended_within(calls, i, node.parents[k]) by {
            lemma_completed_calls(p, calls, i, node.parents[k]);
        }
    }
    assert(calls.take(calls.len() as int) =~= calls);
    lemma_completed_calls(p, calls, calls.len() as int, shard);
}

/// Every parent of a node is complete or stands, with a smaller rank, in the
/// graph itself: the graph has no cycle and no gap.
pub open spec fn is_grounded(graph: Seq<ShardNode>, p: Progress, rank: spec_fn(Seq<char>) -> nat) -> bool {
    forall|k: int, n: int|
        0 <= k < graph.len() && 0 <= n < graph[k].parents.len() ==> p.completed.contains(
            #[trigger] graph[k].parents[n],
        ) || exists|j: int|
            0 <= j < graph.len() && (#[trigger] graph[j]).id == graph[k].parents[n] && rank(
                graph[j].id,
            ) < rank(graph[k].id)
}

/// When no shard of a graph without cycles and gaps is eligible any more, every
/// shard is complete: the scheduler does not stop early.
pub proof fn law_a_grounded_graph_is_drained(
    graph: Seq<ShardNode>,
    p: Progress,
    rank: spec_fn(Seq<char>) -> nat,
)
    requires
        is_grounded(graph, p, rank),
        all_complete(graph, p) || !some_eligible(graph, p),
    ensures
        all_complete(graph, p),
{
    if !all_complete(graph, p) {
        let k = choose|k: int|
            0 <= k < graph.len() && !p.completed.contains((#[trigger] graph[k]).id);
        lemma_lowest_is_eligible(graph, p, rank, k, rank(graph[k].id));
    }
}

proof fn lemma_lowest_is_eligible(
    graph: Seq<ShardNode>,
    p: Progress,
    rank: spec_fn(Seq<char>) -> nat,
    k: int,
    bound: nat,
)
    requires
        is_grounded(graph, p, rank),
        0 <= k < graph.len(),
        !p.completed.contains(graph[k].id),
        rank(graph[k].id) <= bound,
    ensures
        some_eligible(graph, p),
    decreases bound,
{
    if !is_eligible(p, graph[k]) {
        let n = choose|n: int|
            0 <= n < graph[k].parents.len() && !p.completed.contains(#[trigger] graph[k].parents[n]);
        let j = choose|j: int|
            0 <= j < graph.len() && (#[trigger] graph[j]).id == graph[k].parents[n] && rank(
                graph[j].id,
            ) < rank(graph[k].id);
        lemma_lowest_is_eligible(graph, p, rank, j, rank(graph[j].id));
    }
}

/// The records of a series of batches, in order.
pub open spec fn delivered(reads: Seq<Batch>) -> Seq<RecordModel>
    decreases reads.len(),
{
    if reads.len() == 0 {
        Seq::empty()
    } else {
        delivered(reads.drop_last()) + reads.last().records
    }
}

/// The position in a log right after the record with the sequence number
/// `after`; the beginning without one, or if no record has it.
pub open spec fn log_position(log: Seq<RecordModel>, after: Option<Seq<char>>) -> int
    decreases log.len(),
{
    match after {
        None => 0,
        Some(seq) => if log.len() == 0 {
            0
        } else if log.last().seq == seq {
            log.len() as int
        } else {
            log_position(log.drop_last(), after)
        },
    }
}

/// No two records of a log have the same sequence number.
pub open spec fn distinct_seqs(log: Seq<RecordModel>) -> bool {
    forall|i: int, j: int|
        0 <= i < j < log.len() ==> (#[trigger] log[i]).seq != (#[trigger] log[j]).seq
}

/// Reads of `shard` return what follows the given position in `log`, without a
/// gap; a batch that ends the shard reaches the end of the log.
pub open spec fn serves<S: StreamSource>(source: S, shard: Seq<char>, log: Seq<RecordModel>) -> bool {
    &&& distinct_seqs(log)
    &&& forall|after: Option<Seq<char>>, b: Batch| #[trigger]
        source.may_read(shard, after, b) ==> {
            let from = log_position(log, after);
            &&& from + b.records.len() <= log.len()
            &&& b.records == log.subrange(from, from + b.records.len())
            &&& b.shard_end ==> from + b.records.len() == log.len()
        }
}

proof fn lemma_log_position(log: Seq<RecordModel>, i: int)
    requires
        distinct_seqs(log),
        0 <= i < log.len(),
    ensures
        log_position(log, Some(log[i].seq)) == i + 1,
    decreases log.len(),
{
    if i < log.len() - 1 {
        let rest = log.drop_last();
        assert(rest[i] == log[i]);
        assert(log[i].seq != log[log.len() - 1].seq);
        assert forall|a: int, b: int| 0 <= a < b < rest.len() implies (#[trigger] rest[a]).seq != (
        #[trigger] rest[b]).seq by {
            assert(log[a].seq != log[b].seq);
        }
        lemma_log_position(rest, i);
    }
}

proof fn lemma_log_position_bound(log: Seq<RecordModel>, after: Option<Seq<char>>)
    ensures
        0 <= log_position(log, after) <= log.len(),
    decreases log.len(),
{
    if log.len() > 0 && after is Some {
        lemma_log_position_bound(log.drop_last(), after);
    }
}

/// A visit of a shard delivers its log from the position after the checkpoint
/// on, in order, without a gap and without a repetition. The checkpoint is then
/// the last record delivered, and a shard that ended was delivered to the end.
#[verifier::rlimit(50)]
pub proof fn law_a_visit_delivers_the_log_in_order<S: StreamSource>(
    source: S,
    p: Progress,
    shard: Seq<char>,
    reads: Seq<Batch>,
    log: Seq<RecordModel>,
)
    requires
        serves(source, shard, log),
        follows(source, p, shard, reads),
    ensures
        ({
            let from = log_position(log, p.checkpoint_of(shard));
            let to = from + delivered(reads).len();
            let q = after_reads(p, shard, reads);
            &&& 0 <= from <= to <= log.len()
            &&& delivered(reads) == log.subrange(from, to)
            &&& log_position(log, q.checkpoint_of(shard)) == to
            &&& delivered(reads).len() > 0 ==> q.checkpoint_of(shard) == Some(
                delivered(reads).last().seq,
            )
            &&& delivered(reads).len() == 0 ==> q.checkpoint_of(shard) == p.checkpoint_of(shard)
            &&& reads.len() > 0 && reads.last().shard_end ==> to == log.len()
        }),
    decreases reads.len(),
{
    let from = log_position(log, p.checkpoint_of(shard));
    lemma_log_position_bound(log, p.checkpoint_of(shard));
    if reads.len() == 0 {
        assert(delivered(reads) =~= log.subrange(from, from));
    } else {
        let rest = reads.drop_last();
        let b = reads.last();
        assert forall|i: int| 0 <= i < rest.len() implies source.may_read(
            shard,
            after_reads(p, shard, rest.take(i)).checkpoint_of(shard),
            #[trigger] rest[i],
        ) by {
            assert(rest[i] == reads[i]);
            assert(rest.take(i) =~= reads.take(i));
        }
        law_a_visit_delivers_the_log_in_order(source, p, shard, rest, log);
        let mid = from + delivered(rest).len();
        let q = after_reads(p, shard, rest);
        assert(reads[reads.len() - 1] == b);
        assert(reads.take(reads.len() - 1) =~= rest);
        assert(source.may_read(shard, q.checkpoint_of(shard), b));
        assert(b.records == log.subrange(mid, mid + b.records.len()));
        assert(delivered(reads) =~= log.subrange(from, mid + b.records.len()));
        if b.records.len() > 0 {
            let last = mid + b.records.len() - 1;
            assert(b.records.last() == log[last]);
            lemma_log_position(log, last);
            assert(delivered(reads).last() == b.records.last());
        }
    }
}

/// The records that the calls of a processor carry, in order.
pub open spec fn records_of(events: Seq<Event>) -> Seq<RecordModel>
    decreases events.len(),
{
    if events.len() == 0 {
        Seq::empty()
    } else {
        records_of(events.drop_last()) + (match events.last() {
            Event::Records(r) => r,
            _ => Seq::empty(),
        })
    }
}

proof fn lemma_records_concat(a: Seq<Event>, b: Seq<Event>)
    ensures
        records_of(a + b) == records_of(a) + records_of(b),
    decreases b.len(),
{
    if b.len() == 0 {
        assert(a + b =~= a);
        assert(records_of(a) + records_of(b) =~= records_of(a));
    } else {
        assert((a + b).drop_last() =~= a + b.drop_last());
        lemma_records_concat(a, b.drop_last());
        assert(records_of(a + b) =~= records_of(a) + records_of(b));
    }
}

/// The processor is handed exactly the records that were read, in the order in
/// which they were read.
pub proof fn law_processor_sees_what_was_read(shard: Seq<char>, reads: Seq<Batch>)
    ensures
        records_of(read_events(shard, reads)) == delivered(reads),
    decreases reads.len(),
{
    if reads.len() > 0 {
        let b = reads.last();
        law_processor_sees_what_was_read(shard, reads.drop_last());
        let first: Seq<Event> = if b.records.len() > 0 {
            seq![Event::Records(b.records)]
        } else {
            Seq::empty()
        };
        let second: Seq<Event> = if b.shard_end {
            seq![Event::ShardEnded(shard)]
        } else {
            Seq::empty()
        };
        lemma_records_concat(read_events(shard, reads.drop_last()), batch_events(shard, b));
        lemma_records_concat(first, second);
        reveal_with_fuel(records_of, 2);
        assert(first.len() > 0 ==> first.drop_last() =~= Seq::empty());
        assert(second.len() > 0 ==> second.drop_last() =~= Seq::empty());
        assert(records_of(first) =~= b.records);
        assert(records_of(second) =~= Seq::empty());
        assert(records_of(batch_events(shard, b)) =~= b.records);
    }
}

/// A shard may be read exactly if it is not complete and every one of its
/// parents, however many they are, is.
pub proof fn law_a_shard_waits_for_all_of_its_parents(p: Progress, m: ShardMeta)
    ensures
        is_eligible(p, m@) <==> !p.completed.contains(m.id@) && forall|k: int|
            0 <= k < m.parents@.len() ==> p.completed.contains((#[trigger] m.parents@[k])@),
{
    if is_eligible(p, m@) {
        assert forall|k: int| 0 <= k < m.parents@.len() implies p.completed.contains(
            (#[trigger] m.parents@[k])@,
        ) by {
            assert(p.completed.contains(m@.parents[k]));
        }
    }
    if !p.completed.contains(m.id@) && forall|k: int|
        0 <= k < m.parents@.len() ==> p.completed.contains((#[trigger] m.parents@[k])@) {
        assert forall|k: int| 0 <= k < m@.parents.len() implies p.completed.contains(
            #[trigger] m@.parents[k],
        ) by {
            assert(p.completed.contains(m.parents@[k]@));
        }
    }
}

/// A visit reads on as long as there are records, and stops at the first batch
/// that is empty or ends the shard. The shard is complete after it exactly if it
/// was before, or the last batch ended it.
pub proof fn law_a_visit_reads_as_far_as_there_is_something<S: StreamSource>(
    source: S,
    p: Progress,
    shard: Seq<char>,
    reads: Seq<Batch>,
    i: int,
)
    requires
        drains(source, p, shard, reads),
        0 <= i < reads.len(),
    ensures
        i < reads.len() - 1 ==> reads[i].records.len() > 0 && !reads[i].shard_end,
        reads[reads.len() - 1].records.len() == 0 || reads[reads.len() - 1].shard_end,
        after_reads(p, shard, reads).completed.contains(shard) <==> p.completed.contains(shard)
            || reads[reads.len() - 1].shard_end,
{
    assert(goes_on(reads[i]) || i == reads.len() - 1);
    let rest = reads.drop_last();
    assert forall|k: int| 0 <= k < rest.len() implies !(#[trigger] rest[k]).shard_end by {
        assert(goes_on(reads[k]));
    }
    lemma_open_reads(p, shard, rest);
}

proof fn lemma_open_reads(p: Progress, shard: Seq<char>, reads: Seq<Batch>)
    requires
        forall|k: int| 0 <= k < reads.len() ==> !(#[trigger] reads[k]).shard_end,
    ensures
        after_reads(p, shard, reads).completed == p.completed,
    decreases reads.len(),
{
    if reads.len() > 0 {
        assert(!reads[reads.len() - 1].shard_end);
        lemma_open_reads(p, shard, reads.drop_last());
    }
}

proof fn lemma_sweep_completes<S: StreamSource>(
    source: S,
    graph: Seq<ShardNode>,
    p: Progress,
    calls: Seq<Call>,
    q: Progress,
    key: Seq<char>,
)
    requires
        sweeps(source, graph, p, calls, q),
    ensures
        p.completed.contains(key) ==> q.completed.contains(key),
        q.completed.contains(key) ==> p.completed.contains(key) || exists|i: int|
            0 <= i < graph.len() && (#[trigger] graph[i]).id == key,
    decreases graph.len(),
{
    if graph.len() > 0 {
        let rest = graph.drop_last();
        let (before, mid, reads) = choose|before: Seq<Call>, mid: Progress, reads: Seq<Batch>|
            {
                &&& sweeps(source, rest, p, before, mid)
                &&& #[trigger] visits(source, graph.last(), mid, reads, before, calls, q)
            };
        lemma_sweep_completes(source, rest, p, before, mid, key);
        lemma_reads_complete_only(mid, graph.last().id, reads);
        if exists|i: int| 0 <= i < rest.len() && (#[trigger] rest[i]).id == key {
            let i = choose|i: int| 0 <= i < rest.len() && (#[trigger] rest[i]).id == key;
            assert(graph[i].id == key);
        }
        assert(graph[graph.len() - 1] == graph.last());
    }
}

/// A sweep starts every shard that could be read when it began.
pub proof fn law_a_sweep_starts_every_shard_that_is_ready<S: StreamSource>(
    source: S,
    graph: Seq<ShardNode>,
    p: Progress,
    calls: Seq<Call>,
    q: Progress,
    i: int,
)
    requires
        sweeps(source, graph, p, calls, q),
        forall|a: int, b: int|
            0 <= a < b < graph.len() ==> (#[trigger] graph[a]).id != (#[trigger] graph[b]).id,
        0 <= i < graph.len(),
        !p.completed.contains(graph[i].id),
        forall|k: int|
            0 <= k < graph[i].parents.len() ==> p.completed.contains(
                #[trigger] graph[i].parents[k],
            ),
    ensures
        calls.contains(Call::Start(graph[i])),
    decreases graph.len(),
{
    let n = graph.len() - 1;
    let rest = graph.drop_last();
    let (before, mid, reads) = choose|before: Seq<Call>, mid: Progress, reads: Seq<Batch>|
        {
            &&& sweeps(source, rest, p, before, mid)
            &&& #[trigger] visits(source, graph.last(), mid, reads, before, calls, q)
        };
    let start = Call::Start(graph[i]);
    if i < n {
        assert forall|a: int, b: int| 0 <= a < b < rest.len() implies (#[trigger] rest[a]).id != (
        #[trigger] rest[b]).id by {
            assert(graph[a].id != graph[b].id);
        }
        assert(rest[i] == graph[i]);
        law_a_sweep_starts_every_shard_that_is_ready(source, rest, p, before, mid, i);
        assert(calls[before.index_of(start)] == start);
    } else {
        let node = graph.last();
        lemma_sweep_completes(source, rest, p, before, mid, node.id);
        assert forall|a: int| 0 <= a < rest.len() implies (#[trigger] rest[a]).id != node.id by {
            assert(graph[a].id != graph[n].id);
        }
        assert forall|k: int| 0 <= k < node.parents.len() implies mid.completed.contains(
            #[trigger] node.parents[k],
        ) by {
            assert(p.completed.contains(graph[i].parents[k]));
            lemma_sweep_completes(source, rest, p, before, mid, node.parents[k]);
        }
        assert(calls[before.len() as int] == start);
    }
}

/// What a sweep comes to: nothing was left to do exactly if every shard was
/// complete; else it is stuck exactly if no shard could be read.
pub proof fn law_what_a_sweep_comes_to<S: StreamSource>(
    source: S,
    graph: Seq<ShardNode>,
    p: Progress,
    calls: Seq<Call>,
    q: Progress,
    r: Sweep,
)
    requires
        swept(source, graph, p, calls, q, r),
    ensures
        r is Complete <==> forall|i: int|
            0 <= i < graph.len() ==> p.completed.contains((#[trigger] graph[i]).id),
        r is Stuck ==> calls.len() == 0 && forall|i: int|
            0 <= i < graph.len() ==> !is_eligible(p, #[trigger] graph[i]),
        r is Progressed ==> calls.len() > 0,
{
    lemma_quiet_sweep(source, graph, p, calls, q);
}

/// Batches and records are what they stand for, in order.
pub proof fn law_batches_are_as_they_stand(b: RecordBatch, i: int)
    ensures
        b@.records.len() == b.records@.len(),
        b@.shard_end == b.shard_end,
        b@.lag == b.millis_behind_latest,
        0 <= i < b.records@.len() ==> b@.records[i].shard == b.records@[i].shard_id@
            && b@.records[i].seq == b.records@[i].seq@ && b@.records[i].data == b.records@[i].data@,
{
}

} // verus!
