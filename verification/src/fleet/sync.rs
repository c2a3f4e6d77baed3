//! Shard discovery by the leader.
//!
//! The stream is described once to seed the shards whose parents are complete;
//! the initial position applies as long as the table holds no shard. After that,
//! the children of a parent are asked for when it completes, once, so that a
//! stable topology costs no call at all. If that call fails, the whole stream is
//! described instead, and the parent is asked again next time.

use vstd::prelude::*;

use crate::collections::{clone_optional, clone_strings, list_contains, StringSet};
use crate::collections;
use crate::coordinator::RawLease;
use crate::coordinator;
use crate::fleet::cycle::FullRow;
use crate::fleet::cycle;
use crate::leader::{is_shard_key, ShardMeta, ShardNode};
use crate::leader;
use crate::position::{child_seed_checkpoint, InitialPosition};
use crate::position;
use crate::text;

verus! {

/// What the leader remembers of shard discovery.
pub struct SyncState {
    /// The stream was described once.
    pub seeded: bool,
    /// The completed parents whose children were asked for.
    pub child_synced: StringSet,
}

/// What the leader remembers, as a set of texts.
pub struct SyncMemory {
    pub seeded: bool,
    pub synced: Set<Seq<char>>,
}

impl View for SyncState {
    type V = SyncMemory;

    open spec fn view(&self) -> SyncMemory {
        SyncMemory { seeded: self.seeded, synced: self.child_synced@ }
    }
}

impl SyncState {
    /// Nothing was discovered yet.
    pub fn new() -> (s: SyncState)
        ensures
            s@ == (SyncMemory { seeded: false, synced: Set::<Seq<char>>::empty() }),
    {
        SyncState { seeded: false, child_synced: StringSet::new() }
    }
}

/// A lease to create, if it does not exist yet.
#[derive(Clone, Debug)]
pub struct NewLease {
    pub id: String,
    pub parents: Vec<String>,
    pub checkpoint: Option<String>,
}

/// A lease to create, with text in place of strings.
pub struct NewLeaseModel {
    pub id: Seq<char>,
    pub parents: Seq<Seq<char>>,
    pub checkpoint: Option<Seq<char>>,
}

impl View for NewLease {
    type V = NewLeaseModel;

    open spec fn view(&self) -> NewLeaseModel {
        NewLeaseModel {
            id: self.id@,
            parents: collections::texts(self.parents@),
            checkpoint: collections::optional_text(self.checkpoint),
        }
    }
}

impl NewLease {
    /// A copy of the lease.
    pub fn copy(&self) -> (r: NewLease)
        ensures
            r@ == self@,
    {
        NewLease {
            id: self.id.clone(),
            parents: clone_strings(&self.parents),
            checkpoint: clone_optional(&self.checkpoint),
        }
    }
}

/// Leases to create, with text in place of strings.
pub open spec fn new_leases(s: Seq<NewLease>) -> Seq<NewLeaseModel> {
    s.map_values(|l: NewLease| l@)
}

/// `key` is that of a completed lease.
pub open spec fn is_completed(rows: Seq<FullRow>, key: Seq<char>) -> bool {
    exists|i: int| 0 <= i < rows.len() && (#[trigger] rows[i]).key == key && rows[i].completed
}

/// There is a lease of `key`.
pub open spec fn exists_lease(rows: Seq<FullRow>, key: Seq<char>) -> bool {
    exists|i: int| 0 <= i < rows.len() && (#[trigger] rows[i]).key == key
}

/// Some lease names `key` as a parent.
pub open spec fn has_published_child(rows: Seq<FullRow>, key: Seq<char>) -> bool {
    exists|i: int| 0 <= i < rows.len() && (#[trigger] rows[i]).parents.contains(key)
}

/// Every parent of a node is complete.
pub open spec fn parents_complete(rows: Seq<FullRow>, n: ShardNode) -> bool {
    forall|i: int| 0 <= i < n.parents.len() ==> is_completed(rows, #[trigger] n.parents[i])
}

/// The checkpoint of the first lease of `key`.
pub open spec fn checkpoint_of(rows: Seq<FullRow>, key: Seq<char>) -> Option<Seq<char>>
    decreases rows.len(),
{
    if rows.len() == 0 {
        None
    } else if rows[0].key == key {
        rows[0].checkpoint
    } else {
        checkpoint_of(rows.drop_first(), key)
    }
}

/// The checkpoint that a discovered child is seeded with.
pub open spec fn child_checkpoint(rows: Seq<FullRow>, parents: Seq<Seq<char>>) -> Option<Seq<char>> {
    position::child_seed(parents.map_values(|p: Seq<char>| checkpoint_of(rows, p)))
}

/// The lease of a node, with the given checkpoint.
pub open spec fn lease_for(n: ShardNode, checkpoint: Option<Seq<char>>) -> NewLeaseModel {
    NewLeaseModel { id: n.id, parents: n.parents, checkpoint }
}

/// The scan shows no shard: only the leader lease and heartbeats, if anything.
pub open spec fn shows_no_shard(rows: Seq<FullRow>) -> bool {
    forall|i: int| 0 <= i < rows.len() ==> !leader::names_shard((#[trigger] rows[i]).key)
}

/// Where a root begins that is found by seeding: at the initial position if the
/// table holds no shard yet. Later on it begins at its own beginning, so that no
/// record is skipped of a shard that only became a root as its parent was
/// trimmed.
pub open spec fn root_checkpoint(rows: Seq<FullRow>, initial: InitialPosition) -> Option<Seq<char>> {
    if shows_no_shard(rows) {
        position::seed(initial)
    } else {
        None
    }
}

/// Where a described shard begins: a root at `root`, a child where its completed
/// parents leave it to begin.
pub open spec fn start_checkpoint(
    rows: Seq<FullRow>,
    n: ShardNode,
    root: Option<Seq<char>>,
) -> Option<Seq<char>> {
    if n.parents.len() == 0 {
        root
    } else {
        child_checkpoint(rows, n.parents)
    }
}

/// The leases that a description of the stream calls for: of shards whose
/// parents are all complete and that have no lease yet. Roots begin at `root`.
pub open spec fn described_leases(
    rows: Seq<FullRow>,
    graph: Seq<ShardNode>,
    root: Option<Seq<char>>,
) -> Seq<NewLeaseModel> {
    graph.filter(|n: ShardNode| parents_complete(rows, n) && !exists_lease(rows, n.id)).map_values(
        |n: ShardNode| lease_for(n, start_checkpoint(rows, n, root)),
    )
}

/// The leases that seeding creates.
pub open spec fn seed_leases(
    rows: Seq<FullRow>,
    graph: Seq<ShardNode>,
    initial: InitialPosition,
) -> Seq<NewLeaseModel> {
    described_leases(rows, graph, root_checkpoint(rows, initial))
}

/// The leases that are created where the children of a shard could not be asked
/// for and the stream was described instead.
pub open spec fn fallback_leases(rows: Seq<FullRow>, graph: Seq<ShardNode>) -> Seq<NewLeaseModel> {
    described_leases(rows, graph, None)
}

/// The parent `key` is known to be complete: its lease says so; or its lease is
/// gone, and either its children were asked for, or a lease names it as a parent.
/// A parent without a lease of which neither is known may be unpublished yet.
pub open spec fn is_settled(rows: Seq<FullRow>, memory: SyncMemory, key: Seq<char>) -> bool {
    ||| is_completed(rows, key)
    ||| !exists_lease(rows, key) && (memory.synced.contains(key) || has_published_child(rows, key))
}

/// Every parent of a node is known to be complete.
pub open spec fn parents_settled(rows: Seq<FullRow>, memory: SyncMemory, n: ShardNode) -> bool {
    forall|i: int| 0 <= i < n.parents.len() ==> is_settled(rows, memory, #[trigger] n.parents[i])
}

/// The leases for the children of a parent that was asked about: of those whose
/// parents are all known to be complete. A child of several parents is left to
/// the one that completes last.
pub open spec fn child_leases(
    rows: Seq<FullRow>,
    memory: SyncMemory,
    children: Seq<ShardNode>,
) -> Seq<NewLeaseModel> {
    children.filter(
        |n: ShardNode| parents_settled(rows, memory, n) && !exists_lease(rows, n.id),
    ).map_values(|n: ShardNode| lease_for(n, child_checkpoint(rows, n.parents)))
}

/// The children of the lease `r` are to be asked for: it is complete, they were
/// not asked for yet, and none of them is published.
pub open spec fn is_to_ask(rows: Seq<FullRow>, memory: SyncMemory, r: FullRow) -> bool {
    r.completed && !memory.synced.contains(r.key) && !has_published_child(rows, r.key)
}

/// The parents to ask for children, each once, in the order of the table.
pub open spec fn parents_to_ask(rows: Seq<FullRow>, upto: int, memory: SyncMemory) -> Seq<Seq<char>>
    decreases upto,
{
    if upto <= 0 {
        Seq::empty()
    } else {
        let before = parents_to_ask(rows, upto - 1, memory);
        let r = rows[upto - 1];
        if is_to_ask(rows, memory, r) && !before.contains(r.key) {
            before.push(r.key)
        } else {
            before
        }
    }
}

fn completed_key(rows: &[RawLease], key: &str) -> (r: bool)
    ensures
        r == is_completed(cycle::full_rows(rows@), key@),
{
    let ghost t = cycle::full_rows(rows@);
    let mut i: usize = 0;
    while i < rows.len()
        invariant
            i <= rows.len(),
            t == cycle::full_rows(rows@),
            forall|k: int| 0 <= k < i ==> !((#[trigger] t[k]).key == key@ && t[k].completed),
        decreases rows.len() - i,
    {
        assert(t[i as int] == cycle::full(rows@[i as int]));
        if rows[i].completed && text::same(rows[i].lease_key.as_str(), key) {
            return true;
        }
        i = i + 1;
    }
    false
}

fn existing_key(rows: &[RawLease], key: &str) -> (r: bool)
    ensures
        r == exists_lease(cycle::full_rows(rows@), key@),
{
    let ghost t = cycle::full_rows(rows@);
    let mut i: usize = 0;
    while i < rows.len()
        invariant
            i <= rows.len(),
            t == cycle::full_rows(rows@),
            forall|k: int| 0 <= k < i ==> (#[trigger] t[k]).key != key@,
        decreases rows.len() - i,
    {
        assert(t[i as int] == cycle::full(rows@[i as int]));
        if text::same(rows[i].lease_key.as_str(), key) {
            return true;
        }
        i = i + 1;
    }
    false
}

fn published_child(rows: &[RawLease], key: &str) -> (r: bool)
    ensures
        r == has_published_child(cycle::full_rows(rows@), key@),
{
    let ghost t = cycle::full_rows(rows@);
    let mut i: usize = 0;
    while i < rows.len()
        invariant
            i <= rows.len(),
            t == cycle::full_rows(rows@),
            forall|k: int| 0 <= k < i ==> !(#[trigger] t[k]).parents.contains(key@),
        decreases rows.len() - i,
    {
        assert(t[i as int] == cycle::full(rows@[i as int]));
        if list_contains(&rows[i].parents, key) {
            return true;
        }
        i = i + 1;
    }
    false
}

fn all_parents_complete(rows: &[RawLease], meta: &ShardMeta) -> (r: bool)
    ensures
        r == parents_complete(cycle::full_rows(rows@), meta@),
{
    let mut i: usize = 0;
    while i < meta.parents.len()
        invariant
            i <= meta.parents.len(),
            forall|k: int|
                0 <= k < i ==> is_completed(cycle::full_rows(rows@), #[trigger] meta@.parents[k]),
        decreases meta.parents.len() - i,
    {
        assert(meta@.parents[i as int] == meta.parents@[i as int]@);
        if !completed_key(rows, meta.parents[i].as_str()) {
            return false;
        }
        i = i + 1;
    }
    true
}

fn no_shard(rows: &[RawLease]) -> (r: bool)
    ensures
        r == shows_no_shard(cycle::full_rows(rows@)),
{
    let ghost t = cycle::full_rows(rows@);
    let mut i: usize = 0;
    while i < rows.len()
        invariant
            i <= rows.len(),
            t == cycle::full_rows(rows@),
            forall|k: int| 0 <= k < i ==> !leader::names_shard((#[trigger] t[k]).key),
        decreases rows.len() - i,
    {
        assert(t[i as int] == cycle::full(rows@[i as int]));
        if is_shard_key(rows[i].lease_key.as_str()) {
            return false;
        }
        i = i + 1;
    }
    true
}

fn settled_key(rows: &[RawLease], memory: &SyncState, key: &str) -> (r: bool)
    ensures
        r == is_settled(cycle::full_rows(rows@), memory@, key@),
{
    completed_key(rows, key) || !existing_key(rows, key) && (memory.child_synced.contains(key)
        || published_child(rows, key))
}

fn all_parents_settled(rows: &[RawLease], memory: &SyncState, meta: &ShardMeta) -> (r: bool)
    ensures
        r == parents_settled(cycle::full_rows(rows@), memory@, meta@),
{
    let mut i: usize = 0;
    while i < meta.parents.len()
        invariant
            i <= meta.parents.len(),
            forall|k: int|
                0 <= k < i ==> is_settled(
                    cycle::full_rows(rows@),
                    memory@,
                    #[trigger] meta@.parents[k],
                ),
        decreases meta.parents.len() - i,
    {
        assert(meta@.parents[i as int] == meta.parents@[i as int]@);
        if !settled_key(rows, memory, meta.parents[i].as_str()) {
            return false;
        }
        i = i + 1;
    }
    true
}

fn lease_checkpoint(rows: &[RawLease], key: &str) -> (r: Option<String>)
    ensures
        collections::optional_text(r) == checkpoint_of(cycle::full_rows(rows@), key@),
{
    let ghost t = cycle::full_rows(rows@);
    let mut i: usize = 0;
    assert(t.skip(0) =~= t);
    while i < rows.len()
        invariant
            i <= rows.len(),
            t == cycle::full_rows(rows@),
            checkpoint_of(t, key@) == checkpoint_of(t.skip(i as int), key@),
        decreases rows.len() - i,
    {
        assert(t.skip(i as int)[0] == cycle::full(rows@[i as int]));
        assert(t.skip(i as int).drop_first() =~= t.skip(i + 1));
        if text::same(rows[i].lease_key.as_str(), key) {
            return clone_optional(&rows[i].checkpoint);
        }
        i = i + 1;
    }
    None
}

fn seed_for_child(rows: &[RawLease], parents: &Vec<String>) -> (r: Option<String>)
    ensures
        collections::optional_text(r) == child_checkpoint(
            cycle::full_rows(rows@),
            collections::texts(parents@),
        ),
{
    let ghost t = collections::texts(parents@);
    let ghost image = |p: Seq<char>| checkpoint_of(cycle::full_rows(rows@), p);
    let mut checkpoints: Vec<Option<String>> = Vec::new();
    let mut i: usize = 0;
    assert(position::checkpoint_texts(checkpoints@) =~= t.take(0).map_values(image));
    while i < parents.len()
        invariant
            i <= parents.len(),
            t == collections::texts(parents@),
            image == (|p: Seq<char>| checkpoint_of(cycle::full_rows(rows@), p)),
            position::checkpoint_texts(checkpoints@) == t.take(i as int).map_values(image),
        decreases parents.len() - i,
    {
        proof {
            collections::lemma_map_step(t, i as int, image);
        }
        assert(t[i as int] == parents@[i as int]@);
        let c = lease_checkpoint(rows, parents[i].as_str());
        let ghost before = checkpoints@;
        checkpoints.push(c);
        assert(position::checkpoint_texts(checkpoints@) =~= position::checkpoint_texts(before).push(
            image(t[i as int]),
        ));
        i = i + 1;
    }
    assert(t.take(i as int) =~= t);
    child_seed_checkpoint(checkpoints.as_slice())
}

fn lease_of(meta: &ShardMeta, checkpoint: Option<String>) -> (l: NewLease)
    ensures
        l@ == lease_for(meta@, collections::optional_text(checkpoint)),
{
    NewLease { id: meta.id.clone(), parents: clone_strings(&meta.parents), checkpoint }
}

/// The leases that a description of the stream calls for.
fn described(rows: &[RawLease], metas: &Vec<ShardMeta>, root: &Option<String>) -> (r: Vec<NewLease>)
    ensures
        new_leases(r@) == described_leases(
            cycle::full_rows(rows@),
            leader::nodes(metas@),
            collections::optional_text(*root),
        ),
{
    let ghost t = cycle::full_rows(rows@);
    let ghost g = leader::nodes(metas@);
    let ghost keep = |n: ShardNode| parents_complete(t, n) && !exists_lease(t, n.id);
    let ghost at = collections::optional_text(*root);
    let ghost image = |n: ShardNode| lease_for(n, start_checkpoint(t, n, at));
    let mut r: Vec<NewLease> = Vec::new();
    let mut i: usize = 0;
    assert(new_leases(r@) =~= g.take(0).filter(keep).map_values(image)) by {
        reveal(Seq::filter);
    }
    while i < metas.len()
        invariant
            i <= metas.len(),
            t == cycle::full_rows(rows@),
            g == leader::nodes(metas@),
            keep == (|n: ShardNode| parents_complete(t, n) && !exists_lease(t, n.id)),
            at == collections::optional_text(*root),
            image == (|n: ShardNode| lease_for(n, start_checkpoint(t, n, at))),
            new_leases(r@) == g.take(i as int).filter(keep).map_values(image),
        decreases metas.len() - i,
    {
        proof {
            collections::lemma_filter_step(g, i as int, keep);
        }
        assert(g[i as int] == metas@[i as int]@);
        if all_parents_complete(rows, &metas[i]) && !existing_key(rows, metas[i].id.as_str()) {
            assert(g[i as int].parents.len() == metas@[i as int].parents@.len());
            let checkpoint = if metas[i].parents.len() == 0 {
                clone_optional(root)
            } else {
                seed_for_child(rows, &metas[i].parents)
            };
            let l = lease_of(&metas[i], checkpoint);
            let ghost before = r@;
            r.push(l);
            assert(new_leases(r@) =~= new_leases(before).push(image(g[i as int])));
            assert(g.take(i + 1).filter(keep).map_values(image) =~= g.take(i as int).filter(
                keep,
            ).map_values(image).push(image(g[i as int])));
        }
        i = i + 1;
    }
    assert(g.take(i as int) =~= g);
    r
}

/// The leases that seeding creates.
fn seeds(rows: &[RawLease], metas: &Vec<ShardMeta>, initial: InitialPosition) -> (r: Vec<NewLease>)
    ensures
        new_leases(r@) == seed_leases(cycle::full_rows(rows@), leader::nodes(metas@), initial),
{
    let root: Option<String> = if no_shard(rows) {
        initial.seed_checkpoint()
    } else {
        None
    };
    described(rows, metas, &root)
}

/// The leases for discovered children.
fn discovered(rows: &[RawLease], memory: &SyncState, metas: &Vec<ShardMeta>) -> (r: Vec<NewLease>)
    ensures
        new_leases(r@) == child_leases(cycle::full_rows(rows@), memory@, leader::nodes(metas@)),
{
    let ghost t = cycle::full_rows(rows@);
    let ghost g = leader::nodes(metas@);
    let ghost keep = |n: ShardNode| parents_settled(t, memory@, n) && !exists_lease(t, n.id);
    let ghost image = |n: ShardNode| lease_for(n, child_checkpoint(t, n.parents));
    let mut r: Vec<NewLease> = Vec::new();
    let mut i: usize = 0;
    assert(new_leases(r@) =~= g.take(0).filter(keep).map_values(image)) by {
        reveal(Seq::filter);
    }
    while i < metas.len()
        invariant
            i <= metas.len(),
            t == cycle::full_rows(rows@),
            g == leader::nodes(metas@),
            keep == (|n: ShardNode| parents_settled(t, memory@, n) && !exists_lease(t, n.id)),
            image == (|n: ShardNode| lease_for(n, child_checkpoint(t, n.parents))),
            new_leases(r@) == g.take(i as int).filter(keep).map_values(image),
        decreases metas.len() - i,
    {
        proof {
            collections::lemma_filter_step(g, i as int, keep);
        }
        assert(g[i as int] == metas@[i as int]@);
        if all_parents_settled(rows, memory, &metas[i]) && !existing_key(rows, metas[i].id.as_str()) {
            let l = lease_of(&metas[i], seed_for_child(rows, &metas[i].parents));
            let ghost before = r@;
            r.push(l);
            assert(new_leases(r@) =~= new_leases(before).push(image(g[i as int])));
            assert(g.take(i + 1).filter(keep).map_values(image) =~= g.take(i as int).filter(
                keep,
            ).map_values(image).push(image(g[i as int])));
        }
        i = i + 1;
    }
    assert(g.take(i as int) =~= g);
    r
}

/// Where a round of shard discovery stands.
#[derive(Clone, Copy, Debug, PartialEq, Eq, Structural)]
pub enum SyncStage {
    /// The stream is being described to seed the leases.
    Seeding,
    /// The children of the first parent in line are being asked for.
    Asking,
    /// That failed: the stream is being described instead.
    FallingBack,
    Done,
}

/// What a round of shard discovery asks for.
#[derive(Clone, Debug)]
pub enum SyncAction {
    /// Describe the whole stream.
    Describe,
    /// Describe the children of a shard.
    DescribeChildren(String),
    Done,
}

/// One round of shard discovery by the leader.
pub struct ShardSync {
    parents: Vec<String>,
    stage: SyncStage,
}

/// The state of a round.
pub struct SyncModel {
    /// The parents whose children are still to be asked for.
    pub parents: Seq<Seq<char>>,
    pub stage: SyncStage,
}

impl View for ShardSync {
    type V = SyncModel;

    closed spec fn view(&self) -> SyncModel {
        SyncModel { parents: collections::texts(self.parents@), stage: self.stage }
    }
}

/// The stage of a round that has these parents in line.
pub open spec fn asking(parents: Seq<Seq<char>>) -> SyncModel {
    SyncModel {
        parents,
        stage: if parents.len() > 0 {
            SyncStage::Asking
        } else {
            SyncStage::Done
        },
    }
}

/// How a round starts.
pub open spec fn sync_start(rows: Seq<FullRow>, memory: SyncMemory) -> SyncModel {
    if !memory.seeded {
        SyncModel { parents: Seq::empty(), stage: SyncStage::Seeding }
    } else {
        asking(parents_to_ask(rows, rows.len() as int, memory))
    }
}

/// A round, what is remembered, and the leases to create, after an answer.
pub struct SyncStepModel {
    pub round: SyncModel,
    pub memory: SyncMemory,
    pub create: Seq<NewLeaseModel>,
}

/// The step that an answer leads to; `None` is a failed call.
pub open spec fn sync_step(
    m: SyncModel,
    memory: SyncMemory,
    rows: Seq<FullRow>,
    initial: InitialPosition,
    answer: Option<Seq<ShardNode>>,
) -> SyncStepModel {
    match (m.stage, answer) {
        (SyncStage::Seeding, Some(graph)) => SyncStepModel {
            round: SyncModel { stage: SyncStage::Done, ..m },
            memory: SyncMemory { seeded: true, ..memory },
            create: seed_leases(rows, graph, initial),
        },
        (SyncStage::Seeding, None) => SyncStepModel {
            round: SyncModel { stage: SyncStage::Done, ..m },
            memory,
            create: Seq::empty(),
        },
        (SyncStage::Asking, Some(children)) => SyncStepModel {
            round: asking(m.parents.drop_first()),
            memory: SyncMemory { synced: memory.synced.insert(m.parents[0]), ..memory },
            create: child_leases(rows, memory, children),
        },
        (SyncStage::Asking, None) => SyncStepModel {
            round: SyncModel { stage: SyncStage::FallingBack, ..m },
            memory,
            create: Seq::empty(),
        },
        (SyncStage::FallingBack, Some(graph)) => SyncStepModel {
            round: asking(m.parents.drop_first()),
            memory,
            create: fallback_leases(rows, graph),
        },
        (SyncStage::FallingBack, None) => SyncStepModel {
            round: asking(m.parents.drop_first()),
            memory,
            create: Seq::empty(),
        },
        (SyncStage::Done, _) => SyncStepModel { round: m, memory, create: Seq::empty() },
    }
}

/// The answer to a call, as a graph.
pub open spec fn answer_model(a: Option<Vec<ShardMeta>>) -> Option<Seq<ShardNode>> {
    match a {
        Some(v) => Some(leader::nodes(v@)),
        None => None,
    }
}

impl ShardSync {
    /// There is a parent in line whenever one is being asked about.
    pub closed spec fn wf(&self) -> bool {
        self.stage == SyncStage::Asking || self.stage == SyncStage::FallingBack
            ==> self.parents.len() > 0
    }

    /// Start a round, given a scan of the lease table.
    pub fn start(rows: &[RawLease], memory: &SyncState) -> (s: ShardSync)
        ensures
            s.wf(),
            s@ == sync_start(cycle::full_rows(rows@), memory@),
    {
        let ghost t = cycle::full_rows(rows@);
        let mut parents: Vec<String> = Vec::new();
        assert(collections::texts(parents@) =~= Seq::empty());
        if !memory.seeded {
            return ShardSync { parents, stage: SyncStage::Seeding };
        }
        let mut i: usize = 0;
        while i < rows.len()
            invariant
                i <= rows.len(),
                t == cycle::full_rows(rows@),
                collections::texts(parents@) == parents_to_ask(t, i as int, memory@),
            decreases rows.len() - i,
        {
            assert(t[i as int] == cycle::full(rows@[i as int]));
            let key = rows[i].lease_key.as_str();
            if rows[i].completed && !memory.child_synced.contains(key) && !published_child(rows, key)
                && !list_contains(&parents, key) {
                let ghost before = parents@;
                parents.push(rows[i].lease_key.clone());
                assert(collections::texts(parents@) =~= collections::texts(before).push(key@));
            }
            i = i + 1;
        }
        assert(collections::texts(parents@).len() == parents.len());
        let stage = if parents.len() > 0 {
            SyncStage::Asking
        } else {
            SyncStage::Done
        };
        ShardSync { parents, stage }
    }

    /// Is the stream being described to seed the leases?
    pub fn is_seeding(&self) -> (r: bool)
        ensures
            r == (self@.stage == SyncStage::Seeding),
    {
        matches!(self.stage, SyncStage::Seeding)
    }

    /// What the round asks for.
    pub fn action(&self) -> (a: SyncAction)
        requires
            self.wf(),
        ensures
            match self@.stage {
                SyncStage::Seeding => a is Describe,
                SyncStage::Asking => a matches SyncAction::DescribeChildren(p) && p@
                    == self@.parents[0],
                SyncStage::FallingBack => a is Describe,
                SyncStage::Done => a is Done,
            },
    {
        match self.stage {
            SyncStage::Seeding => SyncAction::Describe,
            SyncStage::Asking => SyncAction::DescribeChildren(self.parents[0].clone()),
            SyncStage::FallingBack => SyncAction::Describe,
            SyncStage::Done => SyncAction::Done,
        }
    }

    /// Take the answer to what was asked for, and return the leases to create.
    pub fn answer(
        &mut self,
        answer: &Option<Vec<ShardMeta>>,
        rows: &[RawLease],
        memory: &mut SyncState,
        initial: InitialPosition,
    ) -> (create: Vec<NewLease>)
        requires
            old(self).wf(),
        ensures
            final(self).wf(),
            ({
                let s = sync_step(
                    old(self)@,
                    old(memory)@,
                    cycle::full_rows(rows@),
                    initial,
                    answer_model(*answer),
                );
                &&& final(self)@ == s.round
                &&& final(memory)@ == s.memory
                &&& new_leases(create@) == s.create
            }),
    {
        let ghost before = self@;
        match self.stage {
            SyncStage::Seeding => {
                self.stage = SyncStage::Done;
                match answer {
                    Some(metas) => {
                        memory.seeded = true;
                        seeds(rows, metas, initial)
                    },
                    None => {
                        let none: Vec<NewLease> = Vec::new();
                        assert(new_leases(none@) =~= Seq::empty());
                        none
                    },
                }
            },
            SyncStage::Asking => {
                match answer {
                    Some(children) => {
                        let create = discovered(rows, memory, children);
                        memory.child_synced.insert(self.parents[0].clone());
                        self.advance();
                        create
                    },
                    None => {
                        self.stage = SyncStage::FallingBack;
                        let none: Vec<NewLease> = Vec::new();
                        assert(new_leases(none@) =~= Seq::empty());
                        none
                    },
                }
            },
            SyncStage::FallingBack => {
                self.advance();
                match answer {
                    Some(metas) => described(rows, metas, &None),
                    None => {
                        let none: Vec<NewLease> = Vec::new();
                        assert(new_leases(none@) =~= Seq::empty());
                        none
                    },
                }
            },
            SyncStage::Done => {
                let none: Vec<NewLease> = Vec::new();
                assert(new_leases(none@) =~= Seq::empty());
                none
            },
        }
    }

    /// Go on to the next parent in line.
    fn advance(&mut self)
        requires
            old(self).parents.len() > 0,
        ensures
            final(self).wf(),
            final(self)@ == asking(old(self)@.parents.drop_first()),
    {
        let ghost before = self@.parents;
        let _ = self.parents.remove(0);
        assert(self@.parents =~= before.drop_first());
        assert(self@.parents.len() == self.parents.len());
        self.stage = if self.parents.len() > 0 {
            SyncStage::Asking
        } else {
            SyncStage::Done
        };
    }
}

proof fn lemma_to_ask(rows: Seq<FullRow>, upto: int, memory: SyncMemory, key: Seq<char>)
    requires
        0 <= upto <= rows.len(),
    ensures
        parents_to_ask(rows, upto, memory).contains(key) <==> exists|i: int|
            0 <= i < upto && (#[trigger] rows[i]).key == key && is_to_ask(rows, memory, rows[i]),
        parents_to_ask(rows, upto, memory).no_duplicates(),
    decreases upto,
{
    if upto > 0 {
        let before = parents_to_ask(rows, upto - 1, memory);
        lemma_to_ask(rows, upto - 1, memory, key);
        let all = parents_to_ask(rows, upto, memory);
        let r = rows[upto - 1];
        if all != before {
            assert(all == before.push(r.key));
            if before.contains(key) {
                assert(all[before.index_of(key)] == key);
            }
            assert(all[before.len() as int] == r.key);
        }
    }
}

/// Once the stream was described, a round that finds no newly completed parent
/// makes no call at all.
pub proof fn law_a_stable_topology_costs_no_call(rows: Seq<FullRow>, memory: SyncMemory)
    requires
        memory.seeded,
        forall|i: int| 0 <= i < rows.len() ==> !is_to_ask(rows, memory, #[trigger] rows[i]),
    ensures
        sync_start(rows, memory).stage == SyncStage::Done,
{
    let ask = parents_to_ask(rows, rows.len() as int, memory);
    if ask.len() > 0 {
        lemma_to_ask(rows, rows.len() as int, memory, ask[0]);
        assert(ask.contains(ask[0]));
    }
}

/// A parent is asked about exactly if it is complete, was not asked about
/// before, and has no published child; and no parent twice in a round.
pub proof fn law_asks_for_new_children_once(rows: Seq<FullRow>, memory: SyncMemory, key: Seq<char>)
    requires
        memory.seeded,
    ensures
        sync_start(rows, memory).parents.contains(key) <==> is_completed(rows, key)
            && !memory.synced.contains(key) && !has_published_child(rows, key),
        sync_start(rows, memory).parents.no_duplicates(),
{
    lemma_to_ask(rows, rows.len() as int, memory, key);
}

/// The whole stream is described to seed at most once: afterwards a round never
/// starts by describing it.
pub proof fn law_seeds_once(
    m: SyncModel,
    memory: SyncMemory,
    rows: Seq<FullRow>,
    initial: InitialPosition,
    graph: Seq<ShardNode>,
    later: Seq<FullRow>,
)
    requires
        m.stage == SyncStage::Seeding,
    ensures
        sync_step(m, memory, rows, initial, Some(graph)).memory.seeded,
        sync_start(later, sync_step(m, memory, rows, initial, Some(graph)).memory).stage
            != SyncStage::Seeding,
{
}

/// A parent whose children were asked for is not asked about again; one for
/// which the call failed is.
pub proof fn law_a_failed_call_is_retried(
    m: SyncModel,
    memory: SyncMemory,
    rows: Seq<FullRow>,
    initial: InitialPosition,
    children: Seq<ShardNode>,
    graph: Option<Seq<ShardNode>>,
)
    requires
        m.stage == SyncStage::Asking,
        m.parents.len() > 0,
    ensures
        sync_step(m, memory, rows, initial, Some(children)).memory.synced.contains(m.parents[0]),
        ({
            let failed = sync_step(m, memory, rows, initial, None);
            let after = sync_step(failed.round, failed.memory, rows, initial, graph);
            &&& failed.round.stage == SyncStage::FallingBack
            &&& after.memory == memory
            &&& after.round.parents == m.parents.drop_first()
        }),
{
}

/// Only shards without a lease get one, and only once all of their parents are
/// known to be complete. A child begins where its parents leave it to begin; a
/// root begins at the initial position if it is seeded into a table that shows no
/// shard, and at its own beginning otherwise.
pub proof fn law_creates_only_missing_leases(
    rows: Seq<FullRow>,
    memory: SyncMemory,
    graph: Seq<ShardNode>,
    initial: InitialPosition,
    i: int,
)
    ensures
        0 <= i < seed_leases(rows, graph, initial).len() ==> {
            let l = seed_leases(rows, graph, initial)[i];
            &&& !exists_lease(rows, l.id)
            &&& forall|k: int|
                0 <= k < l.parents.len() ==> is_completed(rows, #[trigger] l.parents[k])
            &&& l.checkpoint == (if l.parents.len() > 0 {
                child_checkpoint(rows, l.parents)
            } else if shows_no_shard(rows) {
                position::seed(initial)
            } else {
                None
            })
        },
        0 <= i < fallback_leases(rows, graph).len() ==> {
            let l = fallback_leases(rows, graph)[i];
            &&& !exists_lease(rows, l.id)
            &&& forall|k: int|
                0 <= k < l.parents.len() ==> is_completed(rows, #[trigger] l.parents[k])
            &&& l.checkpoint == child_checkpoint(rows, l.parents)
        },
        0 <= i < child_leases(rows, memory, graph).len() ==> {
            let l = child_leases(rows, memory, graph)[i];
            &&& !exists_lease(rows, l.id)
            &&& forall|k: int|
                0 <= k < l.parents.len() ==> is_settled(rows, memory, #[trigger] l.parents[k])
            &&& l.checkpoint == child_checkpoint(rows, l.parents)
        },
{
    let gated = |n: ShardNode| parents_complete(rows, n) && !exists_lease(rows, n.id);
    let settled = |n: ShardNode| parents_settled(rows, memory, n) && !exists_lease(rows, n.id);
    if 0 <= i < seed_leases(rows, graph, initial).len() {
        graph.lemma_filter_pred(gated, i);
    }
    if 0 <= i < fallback_leases(rows, graph).len() {
        graph.lemma_filter_pred(gated, i);
    }
    if 0 <= i < child_leases(rows, memory, graph).len() {
        graph.lemma_filter_pred(settled, i);
    }
}

/// A child of several parents is not lost by being withheld: the parent that
/// completes last was not asked about before, so it is asked about now, and the
/// answer that names the child creates its lease. That the lease of another
/// parent was deleted meanwhile does not matter.
pub proof fn law_a_child_is_published_with_its_last_parent(
    rows: Seq<FullRow>,
    memory: SyncMemory,
    last: Seq<char>,
    children: Seq<ShardNode>,
    k: int,
)
    requires
        memory.seeded,
        is_completed(rows, last),
        !memory.synced.contains(last),
        !has_published_child(rows, last),
        0 <= k < children.len(),
        parents_settled(rows, memory, children[k]),
        !exists_lease(rows, children[k].id),
    ensures
        sync_start(rows, memory).parents.contains(last),
        child_leases(rows, memory, children).contains(
            lease_for(children[k], child_checkpoint(rows, children[k].parents)),
        ),
{
    law_asks_for_new_children_once(rows, memory, last);
    let keep = |n: ShardNode| parents_settled(rows, memory, n) && !exists_lease(rows, n.id);
    let image = |n: ShardNode| lease_for(n, child_checkpoint(rows, n.parents));
    let kept = children.filter(keep);
    children.lemma_filter_contains(keep, k);
    let j = kept.index_of(children[k]);
    assert(kept.map_values(image)[j] == image(children[k]));
}

/// The discovery of shards by one leader over time.
pub struct Discovery {
    pub memory: SyncMemory,
    /// The round that is under way, and the scan that it goes by.
    pub round: SyncModel,
    pub rows: Seq<FullRow>,
    /// How many rounds were started.
    pub rounds: nat,
    /// How often the whole stream was described.
    pub described: nat,
    /// The parents whose children were asked for, in order.
    pub asked: Seq<Seq<char>>,
}

/// A step of the discovery.
pub enum DiscoveryMove {
    /// A round starts with a scan.
    Start(Seq<FullRow>),
    /// The call that the round asked for is answered.
    Answer(InitialPosition, Seq<ShardNode>),
}

/// The move takes the discovery from `s` to `t`. No call fails.
pub open spec fn discovery_moves(s: Discovery, m: DiscoveryMove, t: Discovery) -> bool {
    match m {
        DiscoveryMove::Start(rows) => {
            &&& s.round.stage == SyncStage::Done
            &&& t == (Discovery {
                round: sync_start(rows, s.memory),
                rows,
                rounds: s.rounds + 1,
                ..s
            })
        },
        DiscoveryMove::Answer(initial, graph) => {
            let step = sync_step(s.round, s.memory, s.rows, initial, Some(graph));
            &&& s.round.stage != SyncStage::Done
            &&& t == (Discovery {
                memory: step.memory,
                round: step.round,
                described: if s.round.stage == SyncStage::Asking {
                    s.described
                } else {
                    s.described + 1
                },
                asked: if s.round.stage == SyncStage::Asking {
                    s.asked.push(s.round.parents[0])
                } else {
                    s.asked
                },
                ..s
            })
        },
    }
}

/// A leader that has discovered nothing yet.
pub open spec fn is_new_leader(s: Discovery) -> bool {
    &&& !s.memory.seeded
    &&& s.memory.synced == Set::<Seq<char>>::empty()
    &&& s.round.stage == SyncStage::Done
    &&& s.rounds == 0
    &&& s.described == 0
    &&& s.asked.len() == 0
}

/// The calls were not wasted: the stream was described once, in the first round,
/// and no parent was asked about twice. A parent that is about to be asked about
/// is complete, and no lease names it as a parent.
pub open spec fn is_thrifty(s: Discovery) -> bool {
    &&& s.described == (if s.memory.seeded {
        1nat
    } else {
        0nat
    })
    &&& s.rounds > 0 && s.round.stage == SyncStage::Done ==> s.memory.seeded
    &&& s.rounds > 1 ==> s.memory.seeded
    &&& s.round.stage == SyncStage::Seeding ==> !s.memory.seeded
    &&& s.round.stage != SyncStage::FallingBack
    &&& s.asked.no_duplicates()
    &&& forall|p: Seq<char>| #[trigger] s.asked.contains(p) <==> s.memory.synced.contains(p)
    &&& s.round.stage == SyncStage::Asking ==> {
        &&& s.memory.seeded
        &&& s.round.parents.len() > 0
        &&& s.round.parents.no_duplicates()
        &&& forall|i: int|
            0 <= i < s.round.parents.len() ==> {
                &&& is_completed(s.rows, #[trigger] s.round.parents[i])
                &&& !has_published_child(s.rows, s.round.parents[i])
                &&& !s.memory.synced.contains(s.round.parents[i])
            }
    }
}

proof fn lemma_discovery_stays_thrifty(s: Discovery, m: DiscoveryMove, t: Discovery)
    requires
        is_thrifty(s),
        s.rounds == 0 ==> s.round.stage == SyncStage::Done,
        discovery_moves(s, m, t),
    ensures
        is_thrifty(t),
        t.rounds > 0,
{
    match m {
        DiscoveryMove::Start(rows) => {
            if s.memory.seeded {
                assert forall|i: int| 0 <= i < t.round.parents.len() implies {
                    &&& is_completed(rows, #[trigger] t.round.parents[i])
                    &&& !has_published_child(rows, t.round.parents[i])
                    &&& !s.memory.synced.contains(t.round.parents[i])
                } by {
                    assert(t.round.parents.contains(t.round.parents[i]));
                    law_asks_for_new_children_once(rows, s.memory, t.round.parents[i]);
                }
                law_asks_for_new_children_once(rows, s.memory, Seq::empty());
            }
        },
        DiscoveryMove::Answer(initial, graph) => {
            if s.round.stage == SyncStage::Asking {
                let p = s.round.parents[0];
                let rest = s.round.parents.drop_first();
                assert(!s.asked.contains(p));
                assert forall|q: Seq<char>| #[trigger] t.asked.contains(q)
                    <==> t.memory.synced.contains(q) by {
                    if s.asked.contains(q) {
                        assert(t.asked[s.asked.index_of(q)] == q);
                    }
                    assert(t.asked[s.asked.len() as int] == p);
                    if t.asked.contains(q) && q != p {
                        let j = t.asked.index_of(q);
                        assert(s.asked[j] == q);
                    }
                }
                assert forall|i: int| 0 <= i < rest.len() implies {
                    &&& is_completed(t.rows, #[trigger] rest[i])
                    &&& !has_published_child(t.rows, rest[i])
                    &&& !t.memory.synced.contains(rest[i])
                } by {
                    assert(rest[i] == s.round.parents[i + 1]);
                    assert(s.round.parents[i + 1] != s.round.parents[0]);
                }
                assert forall|i: int, j: int|
                    0 <= i < rest.len() && 0 <= j < rest.len() && i != j implies rest[i]
                    != rest[j] by {
                    assert(s.round.parents[i + 1] != s.round.parents[j + 1]);
                }
            }
        },
    }
}

/// The moves take the discovery through these states.
pub open spec fn discovers(states: Seq<Discovery>, made: Seq<DiscoveryMove>) -> bool {
    &&& states.len() == made.len() + 1
    &&& forall|i: int|
        0 <= i < made.len() ==> discovery_moves(states[i], #[trigger] made[i], states[i + 1])
}

/// Over any number of rounds in which no call fails, a leader describes the
/// whole stream once, in the first, and asks about every completed parent at
/// most once, and never about one that a lease names as a parent; and it never
/// creates a lease that its scan shows.
pub proof fn law_discovery_is_thrifty(states: Seq<Discovery>, made: Seq<DiscoveryMove>, i: int)
    requires
        discovers(states, made),
        is_new_leader(states[0]),
        0 <= i < states.len(),
    ensures
        states[i].described <= 1,
        states[i].rounds > 0 && states[i].round.stage == SyncStage::Done ==> states[i].described
            == 1,
        states[i].asked.no_duplicates(),
        states[i].round.stage == SyncStage::Asking ==> is_completed(
            states[i].rows,
            states[i].round.parents[0],
        ) && !has_published_child(states[i].rows, states[i].round.parents[0]),
        i < made.len() ==> (made[i] matches DiscoveryMove::Answer(initial, graph) ==> {
            let create = sync_step(
                states[i].round,
                states[i].memory,
                states[i].rows,
                initial,
                Some(graph),
            ).create;
            forall|k: int|
                0 <= k < create.len() ==> !exists_lease(states[i].rows, (#[trigger] create[k]).id)
        }),
        is_thrifty(states[i]),
        i > 0 ==> states[i].rounds > 0,
    decreases i,
{
    if i < made.len() {
        if let DiscoveryMove::Answer(initial, graph) = made[i] {
            let s = states[i];
            let create = sync_step(s.round, s.memory, s.rows, initial, Some(graph)).create;
            assert forall|k: int| 0 <= k < create.len() implies !exists_lease(
                s.rows,
                (#[trigger] create[k]).id,
            ) by {
                law_creates_only_missing_leases(s.rows, s.memory, graph, initial, k);
            }
        }
    }
    if i > 0 {
        law_discovery_is_thrifty(states, made, i - 1);
        lemma_discovery_stays_thrifty(states[i - 1], made[i - 1], states[i]);
    }
}

/// A row of the scan has this key.
pub open spec fn is_leased(rows: Seq<RawLease>, key: Seq<char>) -> bool {
    exists|i: int| 0 <= i < rows.len() && (#[trigger] rows[i]).lease_key@ == key
}

/// A row of the scan has this key and is completed.
pub open spec fn is_ended(rows: Seq<RawLease>, key: Seq<char>) -> bool {
    exists|i: int|
        0 <= i < rows.len() && (#[trigger] rows[i]).lease_key@ == key && rows[i].completed
}

/// A row of the scan names this key as a parent.
pub open spec fn has_heir(rows: Seq<RawLease>, key: Seq<char>) -> bool {
    exists|i: int, k: int|
        0 <= i < rows.len() && 0 <= k < rows[i].parents@.len() && (#[trigger] rows[i].parents@[k])@
            == key
}

/// The first row with this key waits at the tip: its checkpoint is "LATEST".
pub open spec fn waits_at_the_tip(rows: Seq<RawLease>, key: Seq<char>) -> bool {
    exists|i: int|
        0 <= i < rows.len() && (#[trigger] rows[i]).lease_key@ == key && rows[i].checkpoint is Some
            && rows[i].checkpoint->0@ == "LATEST"@ && forall|k: int|
            0 <= k < i ==> (#[trigger] rows[k]).lease_key@ != key
}

/// Every parent of the shard waits at the tip, and it has one.
pub open spec fn has_idle_parents(rows: Seq<RawLease>, m: ShardMeta) -> bool {
    m.parents@.len() > 0 && forall|k: int|
        0 <= k < m.parents@.len() ==> waits_at_the_tip(rows, (#[trigger] m.parents@[k])@)
}

/// The shard has no row yet, and each of its parents is completed.
pub open spec fn is_ready(rows: Seq<RawLease>, m: ShardMeta) -> bool {
    !is_leased(rows, m.id@) && forall|k: int|
        0 <= k < m.parents@.len() ==> is_ended(rows, (#[trigger] m.parents@[k])@)
}

/// The parent is over: its row says so; or it has none any more, and its children
/// were asked for or have a row.
pub open spec fn is_over(rows: Seq<RawLease>, asked: Set<Seq<char>>, key: Seq<char>) -> bool {
    is_ended(rows, key) || (!is_leased(rows, key) && (asked.contains(key) || has_heir(rows, key)))
}

/// The shard has no row yet, and each of its parents is over.
pub open spec fn is_orphaned(rows: Seq<RawLease>, asked: Set<Seq<char>>, m: ShardMeta) -> bool {
    !is_leased(rows, m.id@) && forall|k: int|
        0 <= k < m.parents@.len() ==> is_over(rows, asked, (#[trigger] m.parents@[k])@)
}

/// The lease is that of the shard: it has its id and its parents, in order.
pub open spec fn is_lease_of(l: NewLeaseModel, m: ShardMeta) -> bool {
    &&& l.id == m.id@
    &&& l.parents.len() == m.parents@.len()
    &&& forall|k: int| 0 <= k < l.parents.len() ==> #[trigger] l.parents[k] == m.parents@[k]@
}

proof fn lemma_rows(rows: Seq<RawLease>, key: Seq<char>)
    ensures
        exists_lease(cycle::full_rows(rows), key) == is_leased(rows, key),
        is_completed(cycle::full_rows(rows), key) == is_ended(rows, key),
        has_published_child(cycle::full_rows(rows), key) == has_heir(rows, key),
{
    let t = cycle::full_rows(rows);
    assert forall|i: int| 0 <= i < rows.len() implies #[trigger] t[i] == cycle::full(rows[i]) by {}
    if is_leased(rows, key) {
        let i = choose|i: int| 0 <= i < rows.len() && (#[trigger] rows[i]).lease_key@ == key;
        assert(t[i].key == key);
    }
    if is_ended(rows, key) {
        let i = choose|i: int|
            0 <= i < rows.len() && (#[trigger] rows[i]).lease_key@ == key && rows[i].completed;
        assert(t[i].key == key && t[i].completed);
    }
    if exists_lease(t, key) {
        let i = choose|i: int| 0 <= i < t.len() && (#[trigger] t[i]).key == key;
        assert(rows[i].lease_key@ == key);
    }
    if is_completed(t, key) {
        let i = choose|i: int| 0 <= i < t.len() && (#[trigger] t[i]).key == key && t[i].completed;
        assert(rows[i].lease_key@ == key && rows[i].completed);
    }
    if has_heir(rows, key) {
        let (i, k) = choose|i: int, k: int|
            0 <= i < rows.len() && 0 <= k < rows[i].parents@.len() && (
            #[trigger] rows[i].parents@[k])@ == key;
        assert(t[i].parents[k] == key);
        assert(t[i].parents.contains(key));
    }
    if has_published_child(t, key) {
        let i = choose|i: int| 0 <= i < t.len() && (#[trigger] t[i]).parents.contains(key);
        let k = t[i].parents.index_of(key);
        assert(rows[i].parents@[k]@ == key);
    }
}

proof fn lemma_tip(rows: Seq<RawLease>, key: Seq<char>)
    ensures
        checkpoint_of(cycle::full_rows(rows), key) == Some("LATEST"@) <==> waits_at_the_tip(rows, key),
    decreases rows.len(),
{
    let t = cycle::full_rows(rows);
    if rows.len() > 0 {
        let rest = rows.drop_first();
        assert(t[0] == cycle::full(rows[0]));
        assert(t.drop_first() =~= cycle::full_rows(rest));
        lemma_tip(rest, key);
        if rows[0].lease_key@ == key {
            if waits_at_the_tip(rows, key) {
                let i = choose|i: int|
                    0 <= i < rows.len() && (#[trigger] rows[i]).lease_key@ == key
                        && rows[i].checkpoint is Some && rows[i].checkpoint->0@ == "LATEST"@
                        && forall|k: int| 0 <= k < i ==> (#[trigger] rows[k]).lease_key@ != key;
                assert(i == 0);
            }
        } else {
            if waits_at_the_tip(rest, key) {
                let i = choose|i: int|
                    0 <= i < rest.len() && (#[trigger] rest[i]).lease_key@ == key
                        && rest[i].checkpoint is Some && rest[i].checkpoint->0@ == "LATEST"@
                        && forall|k: int| 0 <= k < i ==> (#[trigger] rest[k]).lease_key@ != key;
                assert(rows[i + 1].lease_key@ == key);
                assert forall|k: int| 0 <= k < i + 1 implies (#[trigger] rows[k]).lease_key@
                    != key by {
                    if k > 0 {
                        assert(rest[k - 1].lease_key@ != key);
                    }
                }
            }
            if waits_at_the_tip(rows, key) {
                let i = choose|i: int|
                    0 <= i < rows.len() && (#[trigger] rows[i]).lease_key@ == key
                        && rows[i].checkpoint is Some && rows[i].checkpoint->0@ == "LATEST"@
                        && forall|k: int| 0 <= k < i ==> (#[trigger] rows[k]).lease_key@ != key;
                assert(rest[i - 1].lease_key@ == key);
                assert forall|k: int| 0 <= k < i - 1 implies (#[trigger] rest[k]).lease_key@
                    != key by {
                    assert(rows[k + 1].lease_key@ != key);
                }
            }
        }
    }
}

proof fn lemma_child_checkpoint(rows: Seq<RawLease>, m: ShardMeta)
    ensures
        child_checkpoint(cycle::full_rows(rows), m@.parents) == (if has_idle_parents(rows, m) {
            Some("LATEST"@)
        } else {
            None
        }),
{
    let t = cycle::full_rows(rows);
    let c = m@.parents.map_values(|p: Seq<char>| checkpoint_of(t, p));
    assert forall|k: int| 0 <= k < c.len() implies (position::decoded(#[trigger] c[k]) is Latest)
        == waits_at_the_tip(rows, m.parents@[k]@) by {
        assert(m@.parents[k] == m.parents@[k]@);
        lemma_tip(rows, m.parents@[k]@);
    }
    if has_idle_parents(rows, m) {
        assert forall|k: int| 0 <= k < c.len() implies position::decoded(
            #[trigger] c[k],
        ) is Latest by {
            assert(waits_at_the_tip(rows, m.parents@[k]@));
        }
    }
    if position::child_seed(c) is Some {
        assert forall|k: int| 0 <= k < m.parents@.len() implies waits_at_the_tip(
            rows,
            (#[trigger] m.parents@[k])@,
        ) by {
            assert(position::decoded(c[k]) is Latest);
        }
    }
}

proof fn lemma_ready(rows: Seq<RawLease>, memory: SyncMemory, m: ShardMeta)
    ensures
        (parents_complete(cycle::full_rows(rows), m@) && !exists_lease(
            cycle::full_rows(rows),
            m@.id,
        )) == is_ready(rows, m),
        (parents_settled(cycle::full_rows(rows), memory, m@) && !exists_lease(
            cycle::full_rows(rows),
            m@.id,
        )) == is_orphaned(rows, memory.synced, m),
{
    let t = cycle::full_rows(rows);
    lemma_rows(rows, m.id@);
    assert forall|k: int| 0 <= k < m.parents@.len() implies #[trigger] m@.parents[k]
        == m.parents@[k]@ && is_completed(t, m@.parents[k]) == is_ended(rows, m.parents@[k]@)
        && is_settled(t, memory, m@.parents[k]) == is_over(
        rows,
        memory.synced,
        m.parents@[k]@,
    ) by {
        lemma_rows(rows, m.parents@[k]@);
    }
    if is_ready(rows, m) {
        assert forall|k: int| 0 <= k < m@.parents.len() implies is_completed(
            t,
            #[trigger] m@.parents[k],
        ) by {
            assert(is_ended(rows, m.parents@[k]@));
        }
    }
    if parents_complete(t, m@) {
        assert forall|k: int| 0 <= k < m.parents@.len() implies is_ended(
            rows,
            (#[trigger] m.parents@[k])@,
        ) by {
            assert(is_completed(t, m@.parents[k]));
        }
    }
    if is_orphaned(rows, memory.synced, m) {
        assert forall|k: int| 0 <= k < m@.parents.len() implies is_settled(
            t,
            memory,
            #[trigger] m@.parents[k],
        ) by {
            assert(is_over(rows, memory.synced, m.parents@[k]@));
        }
    }
    if parents_settled(t, memory, m@) {
        assert forall|k: int| 0 <= k < m.parents@.len() implies is_over(
            rows,
            memory.synced,
            (#[trigger] m.parents@[k])@,
        ) by {
            assert(is_settled(t, memory, m@.parents[k]));
        }
    }
}

proof fn lemma_described(
    rows: Seq<RawLease>,
    metas: Seq<ShardMeta>,
    root: Option<Seq<char>>,
    i: int,
)
    ensures
        ({
            let ready = |m: ShardMeta| is_ready(rows, m);
            let out = described_leases(cycle::full_rows(rows), leader::nodes(metas), root);
            let at = collections::matching_before(metas, ready, i) as int;
            &&& out.len() == collections::matching_before(metas, ready, metas.len() as int)
            &&& 0 <= i < metas.len() && is_ready(rows, metas[i]) ==> {
                &&& at < out.len()
                &&& is_lease_of(out[at], metas[i])
                &&& out[at].checkpoint == (if metas[i].parents@.len() == 0 {
                    root
                } else if has_idle_parents(rows, metas[i]) {
                    Some("LATEST"@)
                } else {
                    None
                })
            }
        }),
{
    let t = cycle::full_rows(rows);
    let graph = leader::nodes(metas);
    let ready = |m: ShardMeta| is_ready(rows, m);
    let keep = |n: ShardNode| parents_complete(t, n) && !exists_lease(t, n.id);
    let memory = SyncMemory { seeded: true, synced: Set::empty() };
    assert forall|k: int|
        #![trigger graph[k]]
        #![trigger metas[k]]
        0 <= k < graph.len() implies keep(graph[k]) == ready(metas[k]) by {
        assert(graph[k] == metas[k]@);
        lemma_ready(rows, memory, metas[k]);
    }
    collections::lemma_filter_places(graph, keep, metas, ready, i);
    if 0 <= i < metas.len() {
        lemma_child_checkpoint(rows, metas[i]);
        assert(graph[i] == metas[i]@);
    }
}

/// Describing the stream creates a lease for every shard without one whose
/// parents are all completed, in order, and for no other. A root starts at the
/// configured position as long as the table has no shard at all, and at its own
/// beginning otherwise; a child starts at the tip if all of its parents were left
/// waiting there, and at its own beginning otherwise.
pub proof fn law_describing_creates_what_is_ready(
    rows: Seq<RawLease>,
    metas: Seq<ShardMeta>,
    initial: InitialPosition,
    i: int,
)
    ensures
        ({
            let ready = |m: ShardMeta| is_ready(rows, m);
            let seeds = seed_leases(cycle::full_rows(rows), leader::nodes(metas), initial);
            let others = fallback_leases(cycle::full_rows(rows), leader::nodes(metas));
            let at = collections::matching_before(metas, ready, i) as int;
            let is_bare = forall|k: int|
                0 <= k < rows.len() ==> (#[trigger] rows[k]).lease_key@ == "__shard_sync_leader__"@
                    || coordinator::is_beat(rows[k]);
            &&& seeds.len() == collections::matching_before(metas, ready, metas.len() as int)
            &&& others.len() == seeds.len()
            &&& 0 <= i < metas.len() && is_ready(rows, metas[i]) ==> {
                &&& at < seeds.len()
                &&& is_lease_of(seeds[at], metas[i])
                &&& is_lease_of(others[at], metas[i])
                &&& seeds[at].checkpoint == (if has_idle_parents(rows, metas[i]) || (
                metas[i].parents@.len() == 0 && is_bare && initial is Latest) {
                    Some("LATEST"@)
                } else {
                    None
                })
                &&& others[at].checkpoint == (if has_idle_parents(rows, metas[i]) {
                    Some("LATEST"@)
                } else {
                    None
                })
            }
        }),
{
    let t = cycle::full_rows(rows);
    assert forall|k: int| 0 <= k < rows.len() implies #[trigger] t[k] == cycle::full(rows[k])
        && leader::names_shard(t[k].key) == !(rows[k].lease_key@ == "__shard_sync_leader__"@
        || coordinator::is_beat(rows[k])) by {
        coordinator::lemma_beat(rows[k]);
    }
    if shows_no_shard(t) {
        assert forall|k: int| 0 <= k < rows.len() implies (#[trigger] rows[k]).lease_key@
            == "__shard_sync_leader__"@ || coordinator::is_beat(rows[k]) by {
            assert(!leader::names_shard(t[k].key));
        }
    }
    lemma_described(rows, metas, root_checkpoint(t, initial), i);
    lemma_described(rows, metas, None, i);
}

/// Asking for the children of a shard creates a lease for every one without one
/// whose parents are all over, in order, and for no other: at the tip if all of
/// its parents were left waiting there, and at its own beginning otherwise.
pub proof fn law_asking_creates_what_is_orphaned(
    rows: Seq<RawLease>,
    memory: SyncMemory,
    metas: Seq<ShardMeta>,
    i: int,
)
    ensures
        ({
            let ready = |m: ShardMeta| is_orphaned(rows, memory.synced, m);
            let out = child_leases(cycle::full_rows(rows), memory, leader::nodes(metas));
            let at = collections::matching_before(metas, ready, i) as int;
            &&& out.len() == collections::matching_before(metas, ready, metas.len() as int)
            &&& 0 <= i < metas.len() && is_orphaned(rows, memory.synced, metas[i]) ==> {
                &&& at < out.len()
                &&& is_lease_of(out[at], metas[i])
                &&& out[at].checkpoint == (if has_idle_parents(rows, metas[i]) {
                    Some("LATEST"@)
                } else {
                    None
                })
            }
        }),
{
    let t = cycle::full_rows(rows);
    let graph = leader::nodes(metas);
    let ready = |m: ShardMeta| is_orphaned(rows, memory.synced, m);
    let keep = |n: ShardNode| parents_settled(t, memory, n) && !exists_lease(t, n.id);
    assert forall|k: int|
        #![trigger graph[k]]
        #![trigger metas[k]]
        0 <= k < graph.len() implies keep(graph[k]) == ready(metas[k]) by {
        assert(graph[k] == metas[k]@);
        lemma_ready(rows, memory, metas[k]);
    }
    collections::lemma_filter_places(graph, keep, metas, ready, i);
    if 0 <= i < metas.len() {
        lemma_child_checkpoint(rows, metas[i]);
        assert(graph[i] == metas[i]@);
    }
}

/// A round of a leader that has not described the stream describes it. Later on
/// it asks for the children of every completed shard for which it has not asked
/// and of which no row names a child, of each once, and of no other.
pub proof fn law_a_round_asks_for_what_is_missing(
    rows: Seq<RawLease>,
    memory: SyncMemory,
    key: Seq<char>,
)
    ensures
        ({
            let round = sync_start(cycle::full_rows(rows), memory);
            let asks = is_ended(rows, key) && !memory.synced.contains(key) && !has_heir(rows, key);
            &&& !memory.seeded <==> round.stage == SyncStage::Seeding
            &&& memory.seeded ==> (round.parents.contains(key) <==> asks)
            &&& memory.seeded && asks ==> round.stage == SyncStage::Asking
            &&& memory.seeded && round.parents.len() == 0 ==> round.stage == SyncStage::Done
            &&& round.parents.no_duplicates()
        }),
{
    let t = cycle::full_rows(rows);
    lemma_rows(rows, key);
    if memory.seeded {
        law_asks_for_new_children_once(t, memory, key);
    }
}

/// What an answer does. A description seeds the leases and is remembered; the
/// children of the parent at the head of the line are created and remembered,
/// and the line moves on. A failed call for children has the stream described in
/// its place, for the same parent, which is then not remembered; any other
/// failure creates nothing and remembers nothing.
pub proof fn law_answers_move_the_round_on(
    m: SyncModel,
    memory: SyncMemory,
    rows: Seq<FullRow>,
    initial: InitialPosition,
    answer: Option<Seq<ShardNode>>,
)
    requires
        m.stage == SyncStage::Asking || m.stage == SyncStage::FallingBack ==> m.parents.len() > 0,
    ensures
        ({
            let s = sync_step(m, memory, rows, initial, answer);
            &&& m.stage == SyncStage::Seeding ==> s.round.stage == SyncStage::Done
                && s.memory.seeded == (memory.seeded || answer is Some) && s.memory.synced
                == memory.synced
            &&& m.stage == SyncStage::Seeding && answer is Some ==> s.create == seed_leases(
                rows,
                answer->0,
                initial,
            )
            &&& m.stage == SyncStage::Asking && answer is Some ==> s.create == child_leases(
                rows,
                memory,
                answer->0,
            ) && s.memory.synced == memory.synced.insert(m.parents[0])
            &&& m.stage == SyncStage::Asking && answer is None ==> s.round.stage
                == SyncStage::FallingBack && s.round.parents == m.parents
            &&& m.stage == SyncStage::FallingBack && answer is Some ==> s.create
                == fallback_leases(rows, answer->0)
            &&& m.stage == SyncStage::FallingBack || (m.stage == SyncStage::Asking && answer is Some)
                ==> s.round.parents == m.parents.skip(1) && s.round.stage == (if m.parents.len()
                > 1 {
                SyncStage::Asking
            } else {
                SyncStage::Done
            })
            &&& m.stage == SyncStage::FallingBack || answer is None || m.stage == SyncStage::Done
                ==> s.memory == memory
            &&& answer is None || m.stage == SyncStage::Done ==> s.create.len() == 0
            &&& m.stage != SyncStage::Seeding ==> s.memory.seeded == memory.seeded
        }),
{
    if m.parents.len() > 0 {
        assert(m.parents.drop_first() =~= m.parents.skip(1));
    }
}

} // verus!
