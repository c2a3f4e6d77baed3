//! What a worker decides about the shards of a stream: which of them may be
//! read, and what a delivered batch acknowledges.

use vstd::prelude::*;

use crate::collections::{list_contains, StringSet};
use crate::collections;
use crate::leader::{ShardMeta, ShardNode};
use crate::leader;
use crate::scheduler::Record;
use crate::scheduler;

pub mod run;

verus! {

/// The hold on a lease.
#[derive(Clone, Debug)]
pub struct LeaseHandle {
    pub owner: String,
    pub counter: u64,
    /// Where to resume; `None` is the beginning.
    pub checkpoint: Option<String>,
}

/// What a completion check reads of a lease.
#[derive(Clone, Debug)]
pub struct LeaseView {
    pub completed: bool,
}

/// A shard may be read: it is not complete, and each of its parents is complete
/// or has no lease any more. A lease is deleted only once the children of its
/// shard are being processed, so a missing parent is a finished one.
pub open spec fn is_ready(
    node: ShardNode,
    completed: Set<Seq<char>>,
    existing: Set<Seq<char>>,
) -> bool {
    &&& !completed.contains(node.id)
    &&& forall|i: int|
        0 <= i < node.parents.len() ==> completed.contains(#[trigger] node.parents[i])
            || !existing.contains(node.parents[i])
}

/// May the shard be read?
pub fn eligible(meta: &ShardMeta, completed: &StringSet, existing: &StringSet) -> (r: bool)
    ensures
        r == is_ready(meta@, completed@, existing@),
{
    if completed.contains(meta.id.as_str()) {
        return false;
    }
    let mut i: usize = 0;
    while i < meta.parents.len()
        invariant
            i <= meta.parents.len(),
            forall|k: int|
                0 <= k < i ==> completed@.contains(#[trigger] meta@.parents[k])
                    || !existing@.contains(meta@.parents[k]),
        decreases meta.parents.len() - i,
    {
        assert(meta@.parents[i as int] == meta.parents@[i as int]@);
        let parent = meta.parents[i].as_str();
        if !completed.contains(parent) && existing.contains(parent) {
            return false;
        }
        i = i + 1;
    }
    true
}

/// The ids of a shard graph.
pub open spec fn graph_ids(g: Seq<ShardNode>) -> Set<Seq<char>>
    decreases g.len(),
{
    if g.len() == 0 {
        Set::empty()
    } else {
        graph_ids(g.drop_last()).insert(g.last().id)
    }
}

/// The ids of a shard graph, as a set.
pub fn shard_ids(shards: &Vec<ShardMeta>) -> (r: StringSet)
    ensures
        r@ == graph_ids(leader::nodes(shards@)),
{
    let ghost g = leader::nodes(shards@);
    let mut r = StringSet::new();
    let mut i: usize = 0;
    while i < shards.len()
        invariant
            i <= shards.len(),
            g == leader::nodes(shards@),
            r@ == graph_ids(g.take(i as int)),
        decreases shards.len() - i,
    {
        assert(g.take(i + 1).drop_last() =~= g.take(i as int));
        assert(g[i as int] == shards@[i as int]@);
        r.insert(shards[i].id.clone());
        i = i + 1;
    }
    assert(g.take(i as int) =~= g);
    r
}

/// There are shards, and all of them are complete.
pub open spec fn all_done(g: Seq<ShardNode>, completed: Set<Seq<char>>) -> bool {
    g.len() > 0 && forall|i: int|
        0 <= i < g.len() ==> completed.contains((#[trigger] g[i]).id)
}

/// Are there shards, and are all of them complete?
pub fn all_shards_done(shards: &Vec<ShardMeta>, completed: &StringSet) -> (r: bool)
    ensures
        r == all_done(leader::nodes(shards@), completed@),
{
    let ghost g = leader::nodes(shards@);
    if shards.len() == 0 {
        return false;
    }
    let mut i: usize = 0;
    while i < shards.len()
        invariant
            i <= shards.len(),
            g == leader::nodes(shards@),
            forall|k: int| 0 <= k < i ==> completed@.contains((#[trigger] g[k]).id),
        decreases shards.len() - i,
    {
        assert(g[i as int] == shards@[i as int]@);
        if !completed.contains(shards[i].id.as_str()) {
            return false;
        }
        i = i + 1;
    }
    true
}

/// What one pass of a worker over the stream does.
struct WorkPlan {
    /// Every shard is complete: there is nothing to do.
    all_complete: bool,
    /// The shards to read, in the order described.
    work: Vec<ShardMeta>,
}

/// The shards that a pass reads: those that are ready when it starts.
pub open spec fn ready_nodes(g: Seq<ShardNode>, completed: Set<Seq<char>>) -> Seq<ShardNode> {
    g.filter(|n: ShardNode| is_ready(n, completed, graph_ids(g)))
}

/// A single worker over a stream.
pub struct Worker {
    owner: String,
}

impl Worker {
    /// The name under which it holds leases.
    pub closed spec fn owner_name(&self) -> Seq<char> {
        self.owner@
    }

    /// A worker that holds leases as `owner`.
    pub fn new(owner: &str) -> (w: Worker)
        ensures
            w.owner_name() == owner@,
    {
        Worker { owner: owner.to_owned() }
    }

    /// The name under which it holds leases.
    pub fn owner(&self) -> (r: &str)
        ensures
            r@ == self.owner_name(),
    {
        self.owner.as_str()
    }
}

/// Decide one pass, given the described shards and those that are complete.
/// The pass makes progress if it has work.
fn plan_pass(shards: &Vec<ShardMeta>, completed: &StringSet) -> (p: WorkPlan)
    ensures
        p.all_complete == all_done(leader::nodes(shards@), completed@),
        leader::nodes(p.work@) == (if p.all_complete {
            Seq::empty()
        } else {
            ready_nodes(leader::nodes(shards@), completed@)
        }),
{
    let ghost g = leader::nodes(shards@);
    let mut work: Vec<ShardMeta> = Vec::new();
    if all_shards_done(shards, completed) {
        assert(leader::nodes(work@) =~= Seq::empty());
        return WorkPlan { all_complete: true, work };
    }
    let existing = shard_ids(shards);
    let ghost keep = |n: ShardNode| is_ready(n, completed@, graph_ids(g));
    let mut i: usize = 0;
    assert(leader::nodes(work@) =~= g.take(0).filter(keep)) by {
        reveal(Seq::filter);
    }
    while i < shards.len()
        invariant
            i <= shards.len(),
            g == leader::nodes(shards@),
            existing@ == graph_ids(g),
            keep == (|n: ShardNode| is_ready(n, completed@, graph_ids(g))),
            leader::nodes(work@) == g.take(i as int).filter(keep),
        decreases shards.len() - i,
    {
        proof {
            collections::lemma_filter_step(g, i as int, keep);
        }
        assert(g[i as int] == shards@[i as int]@);
        if eligible(&shards[i], completed, &existing) {
            let ghost before = work@;
            work.push(shards[i].copy());
            assert(leader::nodes(work@) =~= leader::nodes(before).push(g[i as int]));
        }
        i = i + 1;
    }
    assert(g.take(i as int) =~= g);
    WorkPlan { all_complete: false, work }
}

/// The position that a batch acknowledges when it was processed as a whole: its
/// last record.
pub fn batch_ack(records: &[Record]) -> (r: Option<String>)
    ensures
        collections::optional_text(r) == (if records@.len() > 0 {
            Some(scheduler::record_models(records@).last().seq)
        } else {
            None
        }),
{
    if records.len() == 0 {
        None
    } else {
        assert(scheduler::record_models(records@).last() == records@.last()@);
        Some(records[records.len() - 1].seq.clone())
    }
}

/// The children of `parent` in a shard graph.
pub open spec fn children_of(g: Seq<ShardNode>, parent: Seq<char>) -> Seq<ShardNode> {
    g.filter(|n: ShardNode| n.parents.contains(parent))
}

/// The children of `parent` among the described shards.
pub fn child_shards(shards: &Vec<ShardMeta>, parent: &str) -> (r: Vec<ShardMeta>)
    ensures
        leader::nodes(r@) == children_of(leader::nodes(shards@), parent@),
{
    let ghost g = leader::nodes(shards@);
    let ghost keep = |n: ShardNode| n.parents.contains(parent@);
    let mut r: Vec<ShardMeta> = Vec::new();
    let mut i: usize = 0;
    assert(leader::nodes(r@) =~= g.take(0).filter(keep)) by {
        reveal(Seq::filter);
    }
    while i < shards.len()
        invariant
            i <= shards.len(),
            g == leader::nodes(shards@),
            keep == (|n: ShardNode| n.parents.contains(parent@)),
            leader::nodes(r@) == g.take(i as int).filter(keep),
        decreases shards.len() - i,
    {
        proof {
            collections::lemma_filter_step(g, i as int, keep);
        }
        assert(g[i as int] == shards@[i as int]@);
        if list_contains(&shards[i].parents, parent) {
            let ghost before = r@;
            r.push(shards[i].copy());
            assert(leader::nodes(r@) =~= leader::nodes(before).push(g[i as int]));
        }
        i = i + 1;
    }
    assert(g.take(i as int) =~= g);
    r
}

/// A shard is read only if none of its parents is still in progress.
pub proof fn law_ready_shards_have_finished_parents(
    node: ShardNode,
    completed: Set<Seq<char>>,
    existing: Set<Seq<char>>,
    parent: Seq<char>,
)
    requires
        is_ready(node, completed, existing),
        node.parents.contains(parent),
        existing.contains(parent),
    ensures
        completed.contains(parent),
{
    assert(node.parents[node.parents.index_of(parent)] == parent);
}

/// Deleting the lease of a completed parent does not strand a child: what was
/// ready to be read still is.
pub proof fn law_deleting_a_completed_parent_strands_no_child(
    node: ShardNode,
    completed: Set<Seq<char>>,
    existing: Set<Seq<char>>,
    deleted: Seq<char>,
)
    requires
        is_ready(node, completed, existing),
    ensures
        is_ready(node, completed.remove(deleted), existing.remove(deleted)),
{
}

/// The shard is not complete, and each of its parents is complete or not among
/// the shards.
pub open spec fn may_be_read(shards: Seq<ShardMeta>, completed: Set<Seq<char>>, m: ShardMeta) -> bool {
    &&& !completed.contains(m.id@)
    &&& forall|p: int, j: int|
        0 <= p < m.parents@.len() && 0 <= j < shards.len() && (#[trigger] m.parents@[p])@ == (
        #[trigger] shards[j]).id@ ==> completed.contains(m.parents@[p]@)
}

proof fn lemma_graph_ids(shards: Seq<ShardMeta>, key: Seq<char>)
    ensures
        graph_ids(leader::nodes(shards)).contains(key) <==> exists|j: int|
            0 <= j < shards.len() && (#[trigger] shards[j]).id@ == key,
    decreases shards.len(),
{
    let g = leader::nodes(shards);
    if shards.len() > 0 {
        let rest = shards.drop_last();
        lemma_graph_ids(rest, key);
        assert(g.drop_last() =~= leader::nodes(rest));
        assert(g.last() == shards[shards.len() - 1]@);
        if exists|j: int| 0 <= j < rest.len() && (#[trigger] rest[j]).id@ == key {
            let j = choose|j: int| 0 <= j < rest.len() && (#[trigger] rest[j]).id@ == key;
            assert(shards[j].id@ == key);
        }
        if exists|j: int| 0 <= j < shards.len() && (#[trigger] shards[j]).id@ == key {
            let j = choose|j: int| 0 <= j < shards.len() && (#[trigger] shards[j]).id@ == key;
            if j < rest.len() {
                assert(rest[j].id@ == key);
            }
        }
    }
}

proof fn lemma_may_be_read(shards: Seq<ShardMeta>, completed: Set<Seq<char>>, m: ShardMeta)
    ensures
        is_ready(m@, completed, graph_ids(leader::nodes(shards))) == may_be_read(
            shards,
            completed,
            m,
        ),
{
    let known = graph_ids(leader::nodes(shards));
    if is_ready(m@, completed, known) {
        assert forall|p: int, j: int|
            0 <= p < m.parents@.len() && 0 <= j < shards.len() && (#[trigger] m.parents@[p])@ == (
            #[trigger] shards[j]).id@ implies completed.contains(m.parents@[p]@) by {
            assert(m@.parents[p] == m.parents@[p]@);
            lemma_graph_ids(shards, m.parents@[p]@);
        }
    }
    if may_be_read(shards, completed, m) {
        assert forall|p: int| 0 <= p < m@.parents.len() implies completed.contains(
            #[trigger] m@.parents[p],
        ) || !known.contains(m@.parents[p]) by {
            assert(m@.parents[p] == m.parents@[p]@);
            lemma_graph_ids(shards, m.parents@[p]@);
            if known.contains(m@.parents[p]) {
                let j = choose|j: int|
                    0 <= j < shards.len() && (#[trigger] shards[j]).id@ == m.parents@[p]@;
                assert(completed.contains(m.parents@[p]@));
            }
        }
    }
}

/// A pass reads every shard that may be read, in the order described, and no
/// other; the stream is done exactly if it has shards and all are complete.
pub proof fn law_a_pass_reads_every_shard_that_may_be_read(
    shards: Seq<ShardMeta>,
    completed: Set<Seq<char>>,
    i: int,
)
    ensures
        ({
            let open = |m: ShardMeta| may_be_read(shards, completed, m);
            let out = ready_nodes(leader::nodes(shards), completed);
            let at = collections::matching_before(shards, open, i) as int;
            &&& out.len() == collections::matching_before(shards, open, shards.len() as int)
            &&& 0 <= i < shards.len() && may_be_read(shards, completed, shards[i]) ==> {
                &&& at < out.len()
                &&& out[at].id == shards[i].id@
                &&& out[at].parents.len() == shards[i].parents@.len()
                &&& forall|p: int|
                    0 <= p < shards[i].parents@.len() ==> out[at].parents[p] == (
                    #[trigger] shards[i].parents@[p])@
            }
        }),
        all_done(leader::nodes(shards), completed) <==> shards.len() > 0 && forall|k: int|
            0 <= k < shards.len() ==> completed.contains((#[trigger] shards[k]).id@),
{
    let g = leader::nodes(shards);
    let open = |m: ShardMeta| may_be_read(shards, completed, m);
    let keep = |n: ShardNode| is_ready(n, completed, graph_ids(g));
    assert forall|k: int|
        #![trigger g[k]]
        #![trigger shards[k]]
        0 <= k < g.len() implies keep(g[k]) == open(shards[k]) by {
        assert(g[k] == shards[k]@);
        lemma_may_be_read(shards, completed, shards[k]);
    }
    collections::lemma_filter_places(g, keep, shards, open, i);
    if 0 <= i < shards.len() {
        assert(g[i] == shards[i]@);
    }
    if all_done(g, completed) {
        assert forall|k: int| 0 <= k < shards.len() implies completed.contains(
            (#[trigger] shards[k]).id@,
        ) by {
            assert(completed.contains(g[k].id));
        }
    }
    if shards.len() > 0 && forall|k: int|
        0 <= k < shards.len() ==> completed.contains((#[trigger] shards[k]).id@) {
        assert forall|k: int| 0 <= k < g.len() implies completed.contains((#[trigger] g[k]).id) by {
            assert(completed.contains(shards[k].id@));
        }
    }
}

/// The children of a shard are those that name it as a parent, in the order
/// described.
pub proof fn law_children_name_their_parent(shards: Seq<ShardMeta>, parent: Seq<char>, i: int)
    ensures
        ({
            let is_child = |m: ShardMeta|
                exists|p: int| 0 <= p < m.parents@.len() && (#[trigger] m.parents@[p])@ == parent;
            let out = children_of(leader::nodes(shards), parent);
            let at = collections::matching_before(shards, is_child, i) as int;
            &&& out.len() == collections::matching_before(shards, is_child, shards.len() as int)
            &&& 0 <= i < shards.len() && is_child(shards[i]) ==> at < out.len() && out[at].id
                == shards[i].id@
        }),
{
    let g = leader::nodes(shards);
    let is_child = |m: ShardMeta|
        exists|p: int| 0 <= p < m.parents@.len() && (#[trigger] m.parents@[p])@ == parent;
    let keep = |n: ShardNode| n.parents.contains(parent);
    assert forall|k: int|
        #![trigger g[k]]
        #![trigger shards[k]]
        0 <= k < g.len() implies keep(g[k]) == is_child(shards[k]) by {
        let m = shards[k];
        assert(g[k] == m@);
        if m@.parents.contains(parent) {
            let p = m@.parents.index_of(parent);
            assert(m.parents@[p]@ == parent);
        }
        if is_child(m) {
            let p = choose|p: int|
                0 <= p < m.parents@.len() && (#[trigger] m.parents@[p])@ == parent;
            assert(m@.parents[p] == parent);
        }
    }
    collections::lemma_filter_places(g, keep, shards, is_child, i);
    if 0 <= i < shards.len() {
        assert(g[i] == shards[i]@);
    }
}

} // verus!
