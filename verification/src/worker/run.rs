//! The passes of a single worker: it describes the stream, sees which shards are
//! complete, reads those that are ready, and starts over until all shards are
//! complete or none is ready.

use vstd::prelude::*;

use crate::collections::StringSet;
use crate::leader::{ShardMeta, ShardNode};
use crate::leader;
use crate::worker::{LeaseView, Worker};
use crate::worker;

verus! {

/// What became of the last action.
#[derive(Clone, Debug)]
pub enum WorkerEvent {
    /// The stream was described.
    Described(Vec<ShardMeta>),
    /// The lease of a shard was looked up; there may be none.
    Looked(Option<LeaseView>),
    /// A shard was read, as far as it goes.
    Read,
    /// The call failed.
    Failed,
}

/// What became of the last action, with a graph in place of shards.
pub enum WorkerEventModel {
    Described(Seq<ShardNode>),
    Looked(Option<LeaseView>),
    Read,
    Failed,
}

impl View for WorkerEvent {
    type V = WorkerEventModel;

    open spec fn view(&self) -> WorkerEventModel {
        match self {
            WorkerEvent::Described(v) => WorkerEventModel::Described(leader::nodes(v@)),
            WorkerEvent::Looked(l) => WorkerEventModel::Looked(*l),
            WorkerEvent::Read => WorkerEventModel::Read,
            WorkerEvent::Failed => WorkerEventModel::Failed,
        }
    }
}

/// What to do next.
#[derive(Clone, Debug)]
pub enum WorkerAction {
    /// Describe the stream.
    Describe,
    /// Look up the lease of a shard.
    Look(String),
    /// Read a shard.
    Read(ShardMeta),
    /// All is done: are all shards complete, and was some shard read in the last
    /// pass?
    Finish(bool, bool),
    Fail,
}

/// What to do next, with text in place of strings.
pub enum WorkerActionModel {
    Describe,
    Look(Seq<char>),
    Read(ShardNode),
    Finish(bool, bool),
    Fail,
}

impl View for WorkerAction {
    type V = WorkerActionModel;

    open spec fn view(&self) -> WorkerActionModel {
        match self {
            WorkerAction::Describe => WorkerActionModel::Describe,
            WorkerAction::Look(k) => WorkerActionModel::Look(k@),
            WorkerAction::Read(m) => WorkerActionModel::Read(m@),
            WorkerAction::Finish(c, p) => WorkerActionModel::Finish(*c, *p),
            WorkerAction::Fail => WorkerActionModel::Fail,
        }
    }
}

/// Where a worker stands.
pub enum WorkerStage {
    Describing,
    /// The lease of the shard at this place is being looked up. Those before it
    /// that are complete are known.
    Looking(Vec<ShardMeta>, StringSet, usize),
    /// The shard at this place of the work is being read.
    Reading(Vec<ShardMeta>, StringSet, Vec<ShardMeta>, usize),
    Over,
}

/// Where a worker stands, with graphs in place of shards.
pub enum WorkerStageModel {
    Describing,
    Looking(Seq<ShardNode>, Set<Seq<char>>, int),
    Reading(Seq<ShardNode>, Set<Seq<char>>, Seq<ShardNode>, int),
    Over,
}

/// A worker at work.
pub struct WorkerRun {
    stage: WorkerStage,
    once: bool,
}

impl View for WorkerRun {
    type V = WorkerStageModel;

    closed spec fn view(&self) -> WorkerStageModel {
        match self.stage {
            WorkerStage::Describing => WorkerStageModel::Describing,
            WorkerStage::Looking(v, c, i) => WorkerStageModel::Looking(
                leader::nodes(v@),
                c@,
                i as int,
            ),
            WorkerStage::Reading(v, c, w, i) => WorkerStageModel::Reading(
                leader::nodes(v@),
                c@,
                leader::nodes(w@),
                i as int,
            ),
            WorkerStage::Over => WorkerStageModel::Over,
        }
    }
}

/// Go on with the work of a pass. Once it is done, the next pass starts, unless
/// this one had no work, or one pass is all there is.
pub open spec fn reading_on(
    g: Seq<ShardNode>,
    completed: Set<Seq<char>>,
    work: Seq<ShardNode>,
    at: int,
    once: bool,
) -> (WorkerStageModel, WorkerActionModel) {
    if at < work.len() {
        (
            WorkerStageModel::Reading(g, completed, work, at),
            WorkerActionModel::Read(work[at]),
        )
    } else if once || work.len() == 0 {
        (WorkerStageModel::Over, WorkerActionModel::Finish(false, work.len() > 0))
    } else {
        (WorkerStageModel::Describing, WorkerActionModel::Describe)
    }
}

/// What a pass does once it knows which shards are complete.
pub open spec fn work_on(g: Seq<ShardNode>, completed: Set<Seq<char>>, once: bool) -> (
    WorkerStageModel,
    WorkerActionModel,
) {
    if worker::all_done(g, completed) {
        (WorkerStageModel::Over, WorkerActionModel::Finish(true, false))
    } else {
        reading_on(g, completed, worker::ready_nodes(g, completed), 0, once)
    }
}

/// Go on to look up leases.
pub open spec fn looking_on(
    g: Seq<ShardNode>,
    completed: Set<Seq<char>>,
    at: int,
    once: bool,
) -> (WorkerStageModel, WorkerActionModel) {
    if at < g.len() {
        (WorkerStageModel::Looking(g, completed, at), WorkerActionModel::Look(g[at].id))
    } else {
        work_on(g, completed, once)
    }
}

/// A lookup shows a completed lease.
pub open spec fn shows_completed(l: Option<LeaseView>) -> bool {
    l matches Some(v) && v.completed
}

/// The completed shards, once the lease of one more was looked up.
pub open spec fn counted(completed: Set<Seq<char>>, key: Seq<char>, l: Option<LeaseView>) -> Set<
    Seq<char>,
> {
    if shows_completed(l) {
        completed.insert(key)
    } else {
        completed
    }
}

/// What an event leads to. A failed call ends the run, and so does an event out
/// of turn.
pub open spec fn worker_step(s: WorkerStageModel, e: WorkerEventModel, once: bool) -> (
    WorkerStageModel,
    WorkerActionModel,
) {
    match (s, e) {
        (WorkerStageModel::Describing, WorkerEventModel::Described(g)) => looking_on(
            g,
            Set::empty(),
            0,
            once,
        ),
        (WorkerStageModel::Looking(g, c, i), WorkerEventModel::Looked(l)) => looking_on(
            g,
            counted(c, g[i].id, l),
            i + 1,
            once,
        ),
        (WorkerStageModel::Reading(g, c, w, i), WorkerEventModel::Read) => reading_on(
            g,
            c,
            w,
            i + 1,
            once,
        ),
        _ => (WorkerStageModel::Over, WorkerActionModel::Fail),
    }
}

impl Worker {
    /// Drive all shards to completion: start passes until all shards are
    /// complete or none is ready.
    pub fn run(&self) -> (r: (WorkerRun, WorkerAction))
        ensures
            r.0.wf(),
            r.0@ == WorkerStageModel::Describing,
            !r.0.is_once(),
            r.1@ == WorkerActionModel::Describe,
    {
        (WorkerRun { stage: WorkerStage::Describing, once: false }, WorkerAction::Describe)
    }

    /// Start a single pass.
    pub fn run_once(&self) -> (r: (WorkerRun, WorkerAction))
        ensures
            r.0.wf(),
            r.0@ == WorkerStageModel::Describing,
            r.0.is_once(),
            r.1@ == WorkerActionModel::Describe,
    {
        (WorkerRun { stage: WorkerStage::Describing, once: true }, WorkerAction::Describe)
    }
}

impl WorkerRun {
    /// One pass is all there is.
    pub closed spec fn is_once(&self) -> bool {
        self.once
    }

    /// The place that it is at exists.
    pub closed spec fn wf(&self) -> bool {
        match self.stage {
            WorkerStage::Looking(v, _, i) => i < v.len(),
            WorkerStage::Reading(_, _, w, i) => i < w.len(),
            _ => true,
        }
    }

    fn read_on(
        &mut self,
        shards: Vec<ShardMeta>,
        completed: StringSet,
        work: Vec<ShardMeta>,
        at: usize,
    ) -> (a: WorkerAction)
        ensures
            final(self).wf(),
            final(self).is_once() == old(self).is_once(),
            (final(self)@, a@) == reading_on(
                leader::nodes(shards@),
                completed@,
                leader::nodes(work@),
                at as int,
                old(self).is_once(),
            ),
    {
        assert(leader::nodes(work@).len() == work.len());
        if at < work.len() {
            assert(leader::nodes(work@)[at as int] == work@[at as int]@);
            let next = work[at].copy();
            self.stage = WorkerStage::Reading(shards, completed, work, at);
            WorkerAction::Read(next)
        } else if self.once || work.len() == 0 {
            self.stage = WorkerStage::Over;
            WorkerAction::Finish(false, work.len() > 0)
        } else {
            self.stage = WorkerStage::Describing;
            WorkerAction::Describe
        }
    }

    fn look_on(&mut self, shards: Vec<ShardMeta>, completed: StringSet, at: usize) -> (a:
        WorkerAction)
        ensures
            final(self).wf(),
            final(self).is_once() == old(self).is_once(),
            (final(self)@, a@) == looking_on(
                leader::nodes(shards@),
                completed@,
                at as int,
                old(self).is_once(),
            ),
    {
        assert(leader::nodes(shards@).len() == shards.len());
        if at < shards.len() {
            assert(leader::nodes(shards@)[at as int] == shards@[at as int]@);
            let key = shards[at].id.clone();
            self.stage = WorkerStage::Looking(shards, completed, at);
            WorkerAction::Look(key)
        } else {
            let plan = worker::plan_pass(&shards, &completed);
            if plan.all_complete {
                self.stage = WorkerStage::Over;
                WorkerAction::Finish(true, false)
            } else {
                self.read_on(shards, completed, plan.work, 0)
            }
        }
    }

    /// Advance the worker.
    pub fn step(&mut self, event: WorkerEvent) -> (a: WorkerAction)
        requires
            old(self).wf(),
        ensures
            final(self).wf(),
            final(self).is_once() == old(self).is_once(),
            (final(self)@, a@) == worker_step(old(self)@, event@, old(self).is_once()),
    {
        let mut stage = WorkerStage::Over;
        std::mem::swap(&mut stage, &mut self.stage);
        match (stage, event) {
            (WorkerStage::Describing, WorkerEvent::Described(shards)) => {
                self.look_on(shards, StringSet::new(), 0)
            },
            (WorkerStage::Looking(shards, known, at), WorkerEvent::Looked(lease)) => {
                let mut completed = known;
                assert(leader::nodes(shards@)[at as int] == shards@[at as int]@);
                if let Some(view) = lease {
                    if view.completed {
                        completed.insert(shards[at].id.clone());
                    }
                }
                self.look_on(shards, completed, at + 1)
            },
            (WorkerStage::Reading(shards, completed, work, at), WorkerEvent::Read) => {
                self.read_on(shards, completed, work, at + 1)
            },
            _ => WorkerAction::Fail,
        }
    }
}

/// The shards that lookups show to be complete, in the order of a graph.
pub open spec fn seen_completed(g: Seq<ShardNode>, looks: Seq<Option<LeaseView>>) -> Set<Seq<char>>
    decreases looks.len(),
{
    if looks.len() == 0 {
        Set::empty()
    } else {
        counted(
            seen_completed(g, looks.drop_last()),
            g[looks.len() - 1].id,
            looks.last(),
        )
    }
}

/// Where a worker stands after some events, and what it does next.
pub open spec fn worker_trace(events: Seq<WorkerEventModel>, once: bool) -> (
    WorkerStageModel,
    WorkerActionModel,
)
    decreases events.len(),
{
    if events.len() == 0 {
        (WorkerStageModel::Describing, WorkerActionModel::Describe)
    } else {
        worker_step(worker_trace(events.drop_last(), once).0, events.last(), once)
    }
}

/// The events of a pass up to some lookups: the description, and the lookups.
pub open spec fn looked_up(g: Seq<ShardNode>, looks: Seq<Option<LeaseView>>) -> Seq<
    WorkerEventModel,
> {
    seq![WorkerEventModel::Described(g)] + looks.map_values(
        |l: Option<LeaseView>| WorkerEventModel::Looked(l),
    )
}

proof fn lemma_pass_looks_up(
    before: Seq<WorkerEventModel>,
    g: Seq<ShardNode>,
    looks: Seq<Option<LeaseView>>,
    once: bool,
)
    requires
        worker_trace(before, once).0 == WorkerStageModel::Describing,
        looks.len() <= g.len(),
    ensures
        worker_trace(before + looked_up(g, looks), once) == looking_on(
            g,
            seen_completed(g, looks),
            looks.len() as int,
            once,
        ),
    decreases looks.len(),
{
    let events = before + looked_up(g, looks);
    if looks.len() == 0 {
        assert(events.drop_last() =~= before);
        assert(events.last() == WorkerEventModel::Described(g));
    } else {
        lemma_pass_looks_up(before, g, looks.drop_last(), once);
        assert(events.drop_last() =~= before + looked_up(g, looks.drop_last()));
        assert(events.last() == WorkerEventModel::Looked(looks.last()));
    }
}

/// In every pass, the worker looks up the lease of each described shard, and
/// then works on the shards that are ready by what the lookups showed.
pub proof fn law_a_pass_goes_by_its_lookups(
    before: Seq<WorkerEventModel>,
    g: Seq<ShardNode>,
    looks: Seq<Option<LeaseView>>,
    once: bool,
)
    requires
        worker_trace(before, once).0 == WorkerStageModel::Describing,
        looks.len() == g.len(),
    ensures
        worker_trace(before + looked_up(g, looks), once) == work_on(
            g,
            seen_completed(g, looks),
            once,
        ),
{
    lemma_pass_looks_up(before, g, looks, once);
}

/// The work of a pass is what was ready when it started.
spec fn is_planned(s: WorkerStageModel) -> bool {
    s matches WorkerStageModel::Reading(g, completed, work, at) ==> {
        &&& work == worker::ready_nodes(g, completed)
        &&& 0 <= at < work.len()
    }
}

proof fn lemma_work_is_planned(events: Seq<WorkerEventModel>, once: bool)
    ensures
        is_planned(worker_trace(events, once).0),
        worker_trace(events, once).1 matches WorkerActionModel::Read(n) ==> worker_trace(
            events,
            once,
        ).0 matches WorkerStageModel::Reading(_, _, work, at) && n == work[at],
    decreases events.len(),
{
    if events.len() > 0 {
        lemma_work_is_planned(events.drop_last(), once);
    }
}

/// Whatever happened before, a shard is read only in a pass that saw it to be
/// incomplete, and every parent of it that the pass described to be complete.
pub proof fn law_a_worker_reads_parents_first(events: Seq<WorkerEventModel>, once: bool)
    ensures
        worker_trace(events, once).1 matches WorkerActionModel::Read(n) ==> worker_trace(
            events,
            once,
        ).0 matches WorkerStageModel::Reading(g, completed, _, _) && g.contains(n)
            && !completed.contains(n.id) && forall|p: Seq<char>|
            #[trigger] n.parents.contains(p) && worker::graph_ids(g).contains(p)
                ==> completed.contains(p),
{
    lemma_work_is_planned(events, once);
    let (stage, action) = worker_trace(events, once);
    if let WorkerActionModel::Read(n) = action {
        if let WorkerStageModel::Reading(g, completed, work, at) = stage {
            let ready = |m: ShardNode| worker::is_ready(m, completed, worker::graph_ids(g));
            g.lemma_filter_pred(ready, at);
            assert(work.contains(n));
            g.lemma_filter_contains_rev(ready, n);
            assert forall|p: Seq<char>| #[trigger]
                n.parents.contains(p) && worker::graph_ids(g).contains(p) implies completed.contains(
                p,
            ) by {
                worker::law_ready_shards_have_finished_parents(
                    n,
                    completed,
                    worker::graph_ids(g),
                    p,
                );
            }
        }
    }
}

/// A worker ends in order only if its last pass found all shards complete, or
/// had nothing to read, or was the only one.
pub proof fn law_a_worker_ends_done_or_stuck(s: WorkerStageModel, e: WorkerEventModel, once: bool)
    ensures
        worker_step(s, e, once).1 matches WorkerActionModel::Finish(complete, progressed)
            ==> complete || !progressed || once,
{
}

/// A shard counts as complete exactly if a lookup of its lease showed that.
pub proof fn law_complete_is_what_lookups_show(
    g: Seq<ShardNode>,
    looks: Seq<Option<LeaseView>>,
    key: Seq<char>,
)
    requires
        looks.len() <= g.len(),
    ensures
        seen_completed(g, looks).contains(key) <==> exists|i: int|
            0 <= i < looks.len() && (#[trigger] g[i]).id == key && looks[i] is Some && (
            looks[i]->0).completed,
    decreases looks.len(),
{
    if looks.len() > 0 {
        let n = looks.len() - 1;
        let rest = looks.drop_last();
        law_complete_is_what_lookups_show(g, rest, key);
        if exists|i: int|
            0 <= i < rest.len() && (#[trigger] g[i]).id == key && rest[i] is Some && (
            rest[i]->0).completed {
            let i = choose|i: int|
                0 <= i < rest.len() && (#[trigger] g[i]).id == key && rest[i] is Some && (
                rest[i]->0).completed;
            assert(g[i].id == key && looks[i] == rest[i]);
        }
        if exists|i: int|
            0 <= i < looks.len() && (#[trigger] g[i]).id == key && looks[i] is Some && (
            looks[i]->0).completed {
            let i = choose|i: int|
                0 <= i < looks.len() && (#[trigger] g[i]).id == key && looks[i] is Some && (
                looks[i]->0).completed;
            if i < n {
                assert(g[i].id == key && looks[i] == rest[i]);
            }
        }
        if g[n].id == key && looks[n] is Some && (looks[n]->0).completed {
            assert(g[n].id == key);
        }
    }
}

/// A worker looks up the shards in order, then reads those that are ready in
/// order, and then starts over, unless one pass is all there is. With all shards
/// complete, or with none ready, it is done; a failed call ends it.
pub proof fn law_a_pass_goes_in_order(
    g: Seq<ShardNode>,
    completed: Set<Seq<char>>,
    work: Seq<ShardNode>,
    at: int,
    l: Option<LeaseView>,
    s: WorkerStageModel,
    once: bool,
)
    requires
        0 <= at,
    ensures
        g.len() > 0 ==> worker_step(
            WorkerStageModel::Describing,
            WorkerEventModel::Described(g),
            once,
        ).1 == WorkerActionModel::Look(g[0].id),
        at + 1 < g.len() ==> worker_step(
            WorkerStageModel::Looking(g, completed, at),
            WorkerEventModel::Looked(l),
            once,
        ).1 == WorkerActionModel::Look(g[at + 1].id),
        at + 1 < work.len() ==> worker_step(
            WorkerStageModel::Reading(g, completed, work, at),
            WorkerEventModel::Read,
            once,
        ) == (
            WorkerStageModel::Reading(g, completed, work, at + 1),
            WorkerActionModel::Read(work[at + 1]),
        ),
        at + 1 == work.len() ==> worker_step(
            WorkerStageModel::Reading(g, completed, work, at),
            WorkerEventModel::Read,
            once,
        ).1 == (if once {
            WorkerActionModel::Finish(false, true)
        } else {
            WorkerActionModel::Describe
        }),
        worker::all_done(g, completed) ==> work_on(g, completed, once).1
            == WorkerActionModel::Finish(true, false),
        !worker::all_done(g, completed) && worker::ready_nodes(g, completed).len() == 0 ==> work_on(
            g,
            completed,
            once,
        ).1 == WorkerActionModel::Finish(false, false),
        !worker::all_done(g, completed) && worker::ready_nodes(g, completed).len() > 0 ==> work_on(
            g,
            completed,
            once,
        ) == (
            WorkerStageModel::Reading(g, completed, worker::ready_nodes(g, completed), 0),
            WorkerActionModel::Read(worker::ready_nodes(g, completed)[0]),
        ),
        worker_step(s, WorkerEventModel::Failed, once).1 == WorkerActionModel::Fail,
{
}

/// Events and actions are what they stand for.
pub proof fn law_events_and_actions_are_as_they_stand(e: WorkerEvent, a: WorkerAction)
    ensures
        match e {
            WorkerEvent::Described(v) => e@ == WorkerEventModel::Described(leader::nodes(v@)),
            WorkerEvent::Looked(l) => e@ == WorkerEventModel::Looked(l),
            WorkerEvent::Read => e@ is Read,
            WorkerEvent::Failed => e@ is Failed,
        },
        match a {
            WorkerAction::Describe => a@ is Describe,
            WorkerAction::Look(k) => a@ == WorkerActionModel::Look(k@),
            WorkerAction::Read(m) => a@ == WorkerActionModel::Read(m@),
            WorkerAction::Finish(c, p) => a@ == WorkerActionModel::Finish(c, p),
            WorkerAction::Fail => a@ is Fail,
        },
{
}

} // verus!
