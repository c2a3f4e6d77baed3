//! What one coordination cycle decides from a scan of the lease table: which
//! leases to take, which owned shards to read, which tombstones to delete, and
//! what to release on the way out.

use vstd::prelude::*;

use crate::cleanup::{leases_safe_to_delete, LeaseState};
use crate::cleanup;
use crate::collections::{clone_optional, clone_strings, StringMap, StringSet};
use crate::collections;
use crate::coordinator::{LeaseCoordinator, RawLease, RawRow};
use crate::coordinator;
use crate::fleet::defer::{CkptDefer, Deferral};
use crate::fleet::pass;
use crate::fleet::pool::{OwnedModel, OwnedShard};
use crate::fleet::pool;
use crate::leader::{is_shard_key, shard_metas_from_leases, ShardNode, LEADER_LEASE_KEY};
use crate::leader;
use crate::position::StartPosition;
use crate::position;
use crate::taker;
use crate::text;
use crate::worker::{all_shards_done, eligible, shard_ids};
use crate::worker;

verus! {

/// A lease row, with text in place of strings.
pub struct FullRow {
    pub key: Seq<char>,
    pub owner: Option<Seq<char>>,
    pub counter: u64,
    pub completed: bool,
    pub checkpoint: Option<Seq<char>>,
    pub parents: Seq<Seq<char>>,
}

/// A lease row, with text in place of strings.
pub open spec fn full(r: RawLease) -> FullRow {
    FullRow {
        key: r.lease_key@,
        owner: collections::optional_text(r.owner),
        counter: r.lease_counter,
        completed: r.completed,
        checkpoint: collections::optional_text(r.checkpoint),
        parents: collections::texts(r.parents@),
    }
}

/// Lease rows, with text in place of strings.
pub open spec fn full_rows(s: Seq<RawLease>) -> Seq<FullRow> {
    s.map_values(|r: RawLease| full(r))
}

fn owned_by(owner: &Option<String>, who: &str) -> (r: bool)
    ensures
        r == (collections::optional_text(*owner) == Some(who@)),
{
    match owner {
        Some(o) => text::same(o.as_str(), who),
        None => false,
    }
}

/// A copy of a row.
pub fn copy_row(r: &RawLease) -> (c: RawLease)
    ensures
        full(c) == full(*r),
        c@ == r@,
{
    RawLease {
        lease_key: r.lease_key.clone(),
        owner: clone_optional(&r.owner),
        lease_counter: r.lease_counter,
        completed: r.completed,
        checkpoint: clone_optional(&r.checkpoint),
        parents: clone_strings(&r.parents),
    }
}

/// The rows of a scan without that of the leader.
pub open spec fn without_leader(rows: Seq<RawRow>) -> Seq<RawRow> {
    rows.filter(|r: RawRow| r.key != leader::leader_key())
}

/// The leases that this worker should attempt to take, given a scan of the
/// table. The leader's lease is not among those that are shared out.
pub fn take_decisions(coordinator: &mut LeaseCoordinator, rows: &[RawLease], now_ms: u64) -> (take:
    Vec<String>)
    ensures
        final(coordinator).me() == old(coordinator).me(),
        final(coordinator).max_take() == old(coordinator).max_take(),
        final(coordinator).duration() == old(coordinator).duration(),
        final(coordinator).seen() == coordinator::observed(
            old(coordinator).seen(),
            without_leader(coordinator::raw_rows(rows@)),
            old(coordinator).me(),
            now_ms,
        ),
        taker::balances(
            coordinator::snapshot(
                final(coordinator).seen(),
                old(coordinator).me(),
                old(coordinator).duration(),
                without_leader(coordinator::raw_rows(rows@)),
                now_ms,
            ),
            old(coordinator).me(),
            old(coordinator).max_take() as int,
            collections::texts(take@),
        ),
{
    let ghost t = coordinator::raw_rows(rows@);
    let ghost keep = |r: RawRow| r.key != leader::leader_key();
    let mut shared: Vec<RawLease> = Vec::new();
    let mut i: usize = 0;
    assert(coordinator::raw_rows(shared@) =~= t.take(0).filter(keep)) by {
        reveal(Seq::filter);
    }
    while i < rows.len()
        invariant
            i <= rows.len(),
            t == coordinator::raw_rows(rows@),
            keep == (|r: RawRow| r.key != leader::leader_key()),
            coordinator::raw_rows(shared@) == t.take(i as int).filter(keep),
        decreases rows.len() - i,
    {
        proof {
            collections::lemma_filter_step(t, i as int, keep);
        }
        assert(t[i as int] == rows@[i as int]@);
        if !text::same(rows[i].lease_key.as_str(), LEADER_LEASE_KEY) {
            let ghost before = shared@;
            shared.push(copy_row(&rows[i]));
            assert(coordinator::raw_rows(shared@) =~= coordinator::raw_rows(before).push(t[i as int]));
        }
        i = i + 1;
    }
    assert(t.take(i as int) =~= t);
    coordinator.tick(shared.as_slice(), now_ms)
}

/// This worker holds the row of an unfinished shard.
pub open spec fn holds(r: FullRow, me: Seq<char>) -> bool {
    leader::names_shard(r.key) && r.owner == Some(me) && !r.completed
}

/// The unfinished shards that this worker holds.
pub open spec fn held(rows: Seq<FullRow>, me: Seq<char>) -> Map<Seq<char>, OwnedModel>
    decreases rows.len(),
{
    if rows.len() == 0 {
        Map::empty()
    } else {
        let before = held(rows.drop_last(), me);
        let r = rows.last();
        if holds(r, me) {
            before.insert(
                r.key,
                OwnedModel { shard: r.key, counter: r.counter, checkpoint: r.checkpoint },
            )
        } else {
            before
        }
    }
}

/// What a member holds of a scan is what some row of it says that it holds.
pub proof fn lemma_held_rows(rows: Seq<FullRow>, me: Seq<char>, k: Seq<char>)
    ensures
        held(rows, me).contains_key(k) <==> exists|i: int|
            0 <= i < rows.len() && holds(#[trigger] rows[i], me) && rows[i].key == k,
    decreases rows.len(),
{
    if rows.len() > 0 {
        let rest = rows.drop_last();
        lemma_held_rows(rest, me, k);
        if exists|i: int|
            0 <= i < rest.len() && holds(#[trigger] rest[i], me) && rest[i].key == k {
            let i = choose|i: int|
                0 <= i < rest.len() && holds(#[trigger] rest[i], me) && rest[i].key == k;
            assert(rows[i] == rest[i]);
        }
        if exists|i: int|
            0 <= i < rows.len() && holds(#[trigger] rows[i], me) && rows[i].key == k {
            let i = choose|i: int|
                0 <= i < rows.len() && holds(#[trigger] rows[i], me) && rows[i].key == k;
            if i < rest.len() {
                assert(rest[i] == rows[i]);
            }
        }
        if holds(rows.last(), me) && rows.last().key == k {
            assert(holds(rows[rows.len() - 1], me));
        }
    }
}

/// The completed shards.
pub open spec fn completed_shards(rows: Seq<FullRow>) -> Set<Seq<char>>
    decreases rows.len(),
{
    if rows.len() == 0 {
        Set::empty()
    } else {
        let before = completed_shards(rows.drop_last());
        let r = rows.last();
        if leader::names_shard(r.key) && r.completed {
            before.insert(r.key)
        } else {
            before
        }
    }
}

/// The shard graph that a scan publishes.
pub open spec fn graph_of(rows: Seq<FullRow>) -> Seq<ShardNode> {
    rows.filter(|r: FullRow| leader::names_shard(r.key)).map_values(
        |r: FullRow| ShardNode { id: r.key, parents: r.parents },
    )
}

/// The owned shards to read in a cycle: those that this worker holds and that
/// are ready, in the order of the table.
pub open spec fn cycle_work(rows: Seq<FullRow>, me: Seq<char>) -> Seq<OwnedModel> {
    let g = graph_of(rows);
    g.filter(
        |n: ShardNode|
            held(rows, me).contains_key(n.id) && worker::is_ready(
                n,
                completed_shards(rows),
                worker::graph_ids(g),
            ),
    ).map_values(|n: ShardNode| held(rows, me)[n.id])
}

/// What one coordination cycle does after the leases were claimed.
pub struct CyclePlan {
    /// The shards that this worker holds.
    pub held: StringSet,
    /// Every shard is complete: the fleet is done.
    pub complete: bool,
    /// The shards to read.
    pub work: Vec<OwnedShard>,
}

proof fn lemma_graph_of(rows: Seq<RawLease>)
    ensures
        graph_of(full_rows(rows)) == leader::published_graph(rows),
    decreases rows.len(),
{
    reveal(Seq::filter);
    let keep = |r: FullRow| leader::names_shard(r.key);
    let image = |r: FullRow| ShardNode { id: r.key, parents: r.parents };
    let raw_keep = |r: RawLease| leader::names_shard(r.lease_key@);
    let raw_image = |r: RawLease| leader::published(r);
    let f = full_rows(rows);
    if rows.len() == 0 {
        assert(graph_of(f) =~= leader::published_graph(rows));
    } else {
        let rest = rows.drop_last();
        lemma_graph_of(rest);
        assert(f.drop_last() =~= full_rows(rest));
        assert(f.last() == full(rows.last()));
        if leader::names_shard(rows.last().lease_key@) {
            assert(graph_of(f) =~= graph_of(full_rows(rest)).push(image(f.last())));
            assert(leader::published_graph(rows) =~= leader::published_graph(rest).push(
                raw_image(rows.last()),
            ));
        }
    }
}

/// The unfinished shards that this worker holds: key, counter, checkpoint.
fn held_rows(rows: &[RawLease], me: &str) -> (r: StringMap<OwnedShard>)
    ensures
        r@.dom() == held(full_rows(rows@), me@).dom(),
        forall|k: Seq<char>| #[trigger]
            r@.contains_key(k) ==> r@[k]@ == held(full_rows(rows@), me@)[k],
{
    let ghost t = full_rows(rows@);
    let mut r: StringMap<OwnedShard> = StringMap::new();
    let mut i: usize = 0;
    assert(r@.dom() =~= held(t.take(0), me@).dom());
    while i < rows.len()
        invariant
            i <= rows.len(),
            t == full_rows(rows@),
            r@.dom() == held(t.take(i as int), me@).dom(),
            forall|k: Seq<char>| #[trigger]
                r@.contains_key(k) ==> r@[k]@ == held(t.take(i as int), me@)[k],
        decreases rows.len() - i,
    {
        assert(t.take(i + 1).drop_last() =~= t.take(i as int));
        assert(t[i as int] == full(rows@[i as int]));
        let row = &rows[i];
        if is_shard_key(row.lease_key.as_str()) && owned_by(&row.owner, me) && !row.completed {
            let o = OwnedShard {
                shard: row.lease_key.clone(),
                counter: row.lease_counter,
                checkpoint: clone_optional(&row.checkpoint),
            };
            let ghost before = r@;
            r.insert(row.lease_key.clone(), o);
            assert(r@.dom() =~= before.dom().insert(row.lease_key@));
            assert(r@.dom() =~= held(t.take(i + 1), me@).dom());
        }
        i = i + 1;
    }
    assert(t.take(i as int) =~= t);
    r
}

/// The unfinished shards that this worker holds, by name.
pub fn held_names(rows: &[RawLease], me: &str) -> (names: StringSet)
    ensures
        names@ == held(full_rows(rows@), me@).dom(),
{
    let ghost t = full_rows(rows@);
    let mut names = StringSet::new();
    let mut i: usize = 0;
    assert(names@ =~= held(t.take(0), me@).dom());
    while i < rows.len()
        invariant
            i <= rows.len(),
            t == full_rows(rows@),
            names@ == held(t.take(i as int), me@).dom(),
        decreases rows.len() - i,
    {
        assert(t.take(i + 1).drop_last() =~= t.take(i as int));
        assert(t[i as int] == full(rows@[i as int]));
        let row = &rows[i];
        let ghost before = names@;
        if is_shard_key(row.lease_key.as_str()) && owned_by(&row.owner, me) && !row.completed {
            names.insert(row.lease_key.clone());
            assert(names@ =~= before.insert(row.lease_key@));
            assert(names@ =~= held(t.take(i + 1), me@).dom());
        }
        i = i + 1;
    }
    assert(t.take(i as int) =~= t);
    names
}

fn completed_rows(rows: &[RawLease]) -> (r: StringSet)
    ensures
        r@ == completed_shards(full_rows(rows@)),
{
    let ghost t = full_rows(rows@);
    let mut r = StringSet::new();
    let mut i: usize = 0;
    while i < rows.len()
        invariant
            i <= rows.len(),
            t == full_rows(rows@),
            r@ == completed_shards(t.take(i as int)),
        decreases rows.len() - i,
    {
        assert(t.take(i + 1).drop_last() =~= t.take(i as int));
        assert(t[i as int] == full(rows@[i as int]));
        if is_shard_key(rows[i].lease_key.as_str()) && rows[i].completed {
            r.insert(rows[i].lease_key.clone());
        }
        i = i + 1;
    }
    assert(t.take(i as int) =~= t);
    r
}

/// Decide a cycle from a scan of the lease table.
pub fn plan_cycle(rows: &[RawLease], me: &str) -> (p: CyclePlan)
    ensures
        p.held@ == held(full_rows(rows@), me@).dom(),
        p.complete == worker::all_done(
            graph_of(full_rows(rows@)),
            completed_shards(full_rows(rows@)),
        ),
        pool::owned_models(p.work@) == (if p.complete {
            Seq::empty()
        } else {
            cycle_work(full_rows(rows@), me@)
        }),
{
    let ghost t = full_rows(rows@);
    let ghost g = graph_of(t);
    let owned = held_rows(rows, me);
    let completed = completed_rows(rows);
    let shards = shard_metas_from_leases(rows);
    proof {
        lemma_graph_of(rows@);
        owned.lemma_order();
    }
    let mut names = StringSet::new();
    let mut n: usize = 0;
    assert(owned.order().take(0).to_set() =~= Set::empty());
    while n < owned.len()
        invariant
            n <= owned.order().len(),
            names@ == owned.order().take(n as int).to_set(),
        decreases owned.order().len() - n,
    {
        names.insert(owned.key_at(n).clone());
        proof {
            let o = owned.order();
            assert(o.take(n + 1) =~= o.take(n as int).push(o[n as int]));
            o.take(n as int).lemma_push_to_set_commute(o[n as int]);
        }
        n = n + 1;
    }
    assert(owned.order().take(n as int) =~= owned.order());
    let mut work: Vec<OwnedShard> = Vec::new();
    if all_shards_done(&shards, &completed) {
        assert(pool::owned_models(work@) =~= Seq::empty());
        return CyclePlan { held: names, complete: true, work };
    }
    let existing = shard_ids(&shards);
    let ghost keep = |x: ShardNode|
        held(t, me@).contains_key(x.id) && worker::is_ready(
            x,
            completed_shards(t),
            worker::graph_ids(g),
        );
    let ghost image = |x: ShardNode| held(t, me@)[x.id];
    let mut i: usize = 0;
    assert(pool::owned_models(work@) =~= g.take(0).filter(keep).map_values(image)) by {
        reveal(Seq::filter);
    }
    while i < shards.len()
        invariant
            i <= shards.len(),
            g == leader::nodes(shards@),
            completed@ == completed_shards(t),
            existing@ == worker::graph_ids(g),
            owned@.dom() == held(t, me@).dom(),
            forall|k: Seq<char>| #[trigger] owned@.contains_key(k) ==> owned@[k]@ == held(t, me@)[k],
            keep == (|x: ShardNode|
                held(t, me@).contains_key(x.id) && worker::is_ready(
                    x,
                    completed_shards(t),
                    worker::graph_ids(g),
                )),
            image == (|x: ShardNode| held(t, me@)[x.id]),
            pool::owned_models(work@) == g.take(i as int).filter(keep).map_values(image),
        decreases shards.len() - i,
    {
        proof {
            collections::lemma_filter_step(g, i as int, keep);
        }
        assert(g[i as int] == shards@[i as int]@);
        assert(owned@.contains_key(shards@[i as int].id@) == owned@.dom().contains(
            shards@[i as int].id@,
        ));
        if let Some(o) = owned.get(shards[i].id.as_str()) {
            if eligible(&shards[i], &completed, &existing) {
                let entry = OwnedShard {
                    shard: o.shard.clone(),
                    counter: o.counter,
                    checkpoint: clone_optional(&o.checkpoint),
                };
                let ghost before = work@;
                work.push(entry);
                assert(pool::owned_models(work@) =~= pool::owned_models(before).push(
                    image(g[i as int]),
                ));
                assert(g.take(i + 1).filter(keep).map_values(image) =~= g.take(i as int).filter(
                    keep,
                ).map_values(image).push(image(g[i as int])));
            }
        }
        i = i + 1;
    }
    assert(g.take(i as int) =~= g);
    CyclePlan { held: names, complete: false, work }
}

/// What cleanup needs to know of a row.
pub open spec fn lease_state(r: FullRow) -> LeaseState {
    LeaseState {
        completed: r.completed,
        processing: r.completed || position::decoded(r.checkpoint) is After,
    }
}

/// What cleanup needs to know of all rows but the leader's.
pub open spec fn lease_states(rows: Seq<FullRow>) -> Map<Seq<char>, LeaseState>
    decreases rows.len(),
{
    if rows.len() == 0 {
        Map::empty()
    } else {
        let before = lease_states(rows.drop_last());
        if rows.last().key != leader::leader_key() {
            before.insert(rows.last().key, lease_state(rows.last()))
        } else {
            before
        }
    }
}

/// The completed leases that the leader deletes, given a scan of the table.
pub fn leases_to_delete(rows: &[RawLease]) -> (r: Vec<String>)
    ensures
        collections::texts(r@) == cleanup::deletable(
            graph_of(full_rows(rows@)),
            lease_states(full_rows(rows@)),
        ),
{
    let ghost t = full_rows(rows@);
    proof {
        lemma_graph_of(rows@);
    }
    let shards = shard_metas_from_leases(rows);
    let mut state: StringMap<LeaseState> = StringMap::new();
    let mut i: usize = 0;
    while i < rows.len()
        invariant
            i <= rows.len(),
            t == full_rows(rows@),
            state@ == lease_states(t.take(i as int)),
        decreases rows.len() - i,
    {
        assert(t.take(i + 1).drop_last() =~= t.take(i as int));
        assert(t[i as int] == full(rows@[i as int]));
        let row = &rows[i];
        if !text::same(row.lease_key.as_str(), LEADER_LEASE_KEY) {
            let checkpoint: Option<&str> = match &row.checkpoint {
                Some(s) => Some(s.as_str()),
                None => None,
            };
            let started = !StartPosition::from_checkpoint(checkpoint).is_start_mode();
            state.insert(
                row.lease_key.clone(),
                LeaseState { completed: row.completed, processing: row.completed || started },
            );
        }
        i = i + 1;
    }
    assert(t.take(i as int) =~= t);
    leases_safe_to_delete(shards.as_slice(), &state)
}

/// The keys of some rows.
pub open spec fn row_keys(rows: Seq<FullRow>) -> Seq<Seq<char>> {
    rows.map_values(|r: FullRow| r.key)
}

/// The shards that this worker currently owns: unfinished leases under its name.
/// The leader's lease and heartbeat rows are no shards.
pub fn owned_shard_keys(rows: &[RawLease], me: &str) -> (r: Vec<String>)
    ensures
        collections::texts(r@) == row_keys(full_rows(rows@).filter(|x: FullRow| holds(x, me@))),
{
    let ghost t = full_rows(rows@);
    let ghost keep = |x: FullRow| holds(x, me@);
    let mut r: Vec<String> = Vec::new();
    let mut i: usize = 0;
    assert(collections::texts(r@) =~= row_keys(t.take(0).filter(keep))) by {
        reveal(Seq::filter);
    }
    while i < rows.len()
        invariant
            i <= rows.len(),
            t == full_rows(rows@),
            keep == (|x: FullRow| holds(x, me@)),
            collections::texts(r@) == row_keys(t.take(i as int).filter(keep)),
        decreases rows.len() - i,
    {
        proof {
            collections::lemma_filter_step(t, i as int, keep);
        }
        assert(t[i as int] == full(rows@[i as int]));
        let row = &rows[i];
        if is_shard_key(row.lease_key.as_str()) && owned_by(&row.owner, me) && !row.completed {
            let ghost before = r@;
            r.push(row.lease_key.clone());
            assert(collections::texts(r@) =~= collections::texts(before).push(t[i as int].key));
            assert(row_keys(t.take(i + 1).filter(keep)) =~= row_keys(t.take(i as int).filter(keep)).push(
                t[i as int].key,
            ));
        }
        i = i + 1;
    }
    assert(t.take(i as int) =~= t);
    r
}

/// One lease to release on the way out.
#[derive(Clone, Debug)]
pub struct Release {
    pub lease_key: String,
    pub counter: u64,
    /// A position that is to be written as a checkpoint first, best effort.
    pub pending: Option<String>,
}

/// One lease to release, with text in place of strings.
pub struct ReleaseModel {
    pub key: Seq<char>,
    pub counter: u64,
    pub pending: Option<Seq<char>>,
}

impl View for Release {
    type V = ReleaseModel;

    open spec fn view(&self) -> ReleaseModel {
        ReleaseModel {
            key: self.lease_key@,
            counter: self.counter,
            pending: collections::optional_text(self.pending),
        }
    }
}

/// Leases to release, with text in place of strings.
pub open spec fn release_models(s: Seq<Release>) -> Seq<ReleaseModel> {
    s.map_values(|r: Release| r@)
}

/// The releases of a scan, and the deferral after them: every unfinished lease
/// under this worker's name is released, with what is pending of it.
pub open spec fn releases(rows: Seq<FullRow>, me: Seq<char>, d: Option<Deferral>) -> (
    Seq<ReleaseModel>,
    Option<Deferral>,
)
    decreases rows.len(),
{
    if rows.len() == 0 {
        (Seq::empty(), d)
    } else {
        let (before, e) = releases(rows.drop_last(), me, d);
        let r = rows.last();
        if r.owner == Some(me) && !r.completed {
            (
                before.push(
                    ReleaseModel {
                        key: r.key,
                        counter: r.counter,
                        pending: pass::pending_of(e, r.key),
                    },
                ),
                pass::without(e, r.key),
            )
        } else {
            (before, e)
        }
    }
}

/// Plan the release of every lease that this worker owns, so that another one
/// takes over at once. What is pending leaves the deferral.
pub fn plan_release(rows: &[RawLease], me: &str, defer: &mut Option<CkptDefer>) -> (r: Vec<Release>)
    ensures
        (release_models(r@), pass::deferral(*final(defer))) == releases(
            full_rows(rows@),
            me@,
            pass::deferral(*old(defer)),
        ),
{
    let ghost t = full_rows(rows@);
    let ghost d0 = pass::deferral(*defer);
    let mut r: Vec<Release> = Vec::new();
    let mut i: usize = 0;
    assert(release_models(r@) =~= Seq::empty());
    while i < rows.len()
        invariant
            i <= rows.len(),
            t == full_rows(rows@),
            (release_models(r@), pass::deferral(*defer)) == releases(t.take(i as int), me@, d0),
        decreases rows.len() - i,
    {
        assert(t.take(i + 1).drop_last() =~= t.take(i as int));
        assert(t[i as int] == full(rows@[i as int]));
        let ghost e = pass::deferral(*defer);
        let row = &rows[i];
        if owned_by(&row.owner, me) && !row.completed {
            let key = row.lease_key.as_str();
            let pending: Option<String> = match defer {
                Some(d) => {
                    let p = d.take_pending(key);
                    d.forget(key);
                    p
                },
                None => None,
            };
            proof {
                if let Some(x) = e {
                    assert(x.taken(key@).forgotten(key@).shards =~= x.forgotten(key@).shards);
                }
            }
            let step = Release {
                lease_key: row.lease_key.clone(),
                counter: row.lease_counter,
                pending,
            };
            let ghost before = r@;
            r.push(step);
            assert(release_models(r@) =~= release_models(before).push(step@));
        }
        i = i + 1;
    }
    assert(t.take(i as int) =~= t);
    r
}

impl Release {
    /// The counter on condition of which the lease is released: that of the
    /// flushed checkpoint, if it was written.
    pub fn release_counter(&self, flushed: Option<u64>) -> (c: u64)
        ensures
            c == (match flushed {
                Some(n) => n,
                None => self.counter,
            }),
    {
        match flushed {
            Some(n) => n,
            None => self.counter,
        }
    }
}

/// A cycle reads only unfinished shards that this worker holds, and only when
/// no parent of the shard is still in progress.
pub proof fn law_reads_only_ready_shards_it_holds(rows: Seq<FullRow>, me: Seq<char>, i: int)
    requires
        0 <= i < cycle_work(rows, me).len(),
    ensures
        exists|n: ShardNode| #[trigger]
            graph_of(rows).contains(n) && held(rows, me).contains_key(n.id) && cycle_work(
                rows,
                me,
            )[i] == held(rows, me)[n.id] && worker::is_ready(
                n,
                completed_shards(rows),
                worker::graph_ids(graph_of(rows)),
            ),
{
    let g = graph_of(rows);
    let keep = |n: ShardNode|
        held(rows, me).contains_key(n.id) && worker::is_ready(
            n,
            completed_shards(rows),
            worker::graph_ids(g),
        );
    g.lemma_filter_pred(keep, i);
    let n = g.filter(keep)[i];
    assert(g.filter(keep).contains(n));
    g.lemma_filter_contains_rev(keep, n);
    assert(g.contains(n));
}

proof fn lemma_held(rows: Seq<FullRow>, me: Seq<char>, key: Seq<char>)
    ensures
        held(rows, me).contains_key(key) <==> exists|i: int|
            0 <= i < rows.len() && (#[trigger] rows[i]).key == key && holds(rows[i], me),
    decreases rows.len(),
{
    if rows.len() > 0 {
        let rest = rows.drop_last();
        lemma_held(rest, me, key);
        if held(rest, me).contains_key(key) {
            let i = choose|i: int|
                0 <= i < rest.len() && (#[trigger] rest[i]).key == key && holds(rest[i], me);
            assert(rows[i].key == key);
        }
        if exists|i: int| 0 <= i < rows.len() && (#[trigger] rows[i]).key == key && holds(rows[i], me) {
            let i = choose|i: int|
                0 <= i < rows.len() && (#[trigger] rows[i]).key == key && holds(rows[i], me);
            if i < rest.len() {
                assert(rest[i].key == key);
            }
        }
        if rows.last().key == key {
            assert(rows[rows.len() - 1].key == key);
        }
    }
}

/// What counts as held are the unfinished shard leases under this worker's
/// name: never the leader's row, and never a heartbeat row.
pub proof fn law_holds_unfinished_shards_only(rows: Seq<FullRow>, me: Seq<char>, key: Seq<char>)
    ensures
        held(rows, me).contains_key(key) <==> exists|i: int|
            0 <= i < rows.len() && (#[trigger] rows[i]).key == key && holds(rows[i], me),
        held(rows, me).contains_key(key) ==> leader::names_shard(key),
{
    lemma_held(rows, me, key);
}

/// No two rows have the same key.
pub open spec fn distinct_keys(rows: Seq<FullRow>) -> bool {
    forall|i: int, j: int|
        0 <= i < j < rows.len() ==> (#[trigger] rows[i]).key != (#[trigger] rows[j]).key
}

/// Every release carries what is pending of its lease, so that it is written
/// before the lease moves, and afterwards nothing of it stays pending.
pub proof fn law_a_release_flushes_what_is_pending(
    rows: Seq<FullRow>,
    me: Seq<char>,
    d: Option<Deferral>,
    key: Seq<char>,
)
    requires
        distinct_keys(rows),
    ensures
        forall|i: int|
            0 <= i < releases(rows, me, d).0.len() ==> (#[trigger] releases(
                rows,
                me,
                d,
            ).0[i]).pending == pass::pending_of(d, releases(rows, me, d).0[i].key),
        forall|i: int|
            0 <= i < releases(rows, me, d).0.len() ==> exists|j: int|
                0 <= j < rows.len() && (#[trigger] rows[j]).key == (#[trigger] releases(
                    rows,
                    me,
                    d,
                ).0[i]).key && rows[j].owner == Some(me) && !rows[j].completed,
        (exists|j: int|
            0 <= j < rows.len() && (#[trigger] rows[j]).key == key && rows[j].owner == Some(me)
                && !rows[j].completed) ==> pass::pending_of(releases(rows, me, d).1, key) is None,
        !(exists|j: int|
            0 <= j < rows.len() && (#[trigger] rows[j]).key == key && rows[j].owner == Some(me)
                && !rows[j].completed) ==> pass::pending_of(releases(rows, me, d).1, key)
            == pass::pending_of(d, key),
    decreases rows.len(),
{
    if rows.len() > 0 {
        let rest = rows.drop_last();
        let r = rows.last();
        assert forall|i: int, j: int| 0 <= i < j < rest.len() implies (#[trigger] rest[i]).key != (
        #[trigger] rest[j]).key by {
            assert(rows[i].key != rows[j].key);
        }
        law_a_release_flushes_what_is_pending(rest, me, d, key);
        law_a_release_flushes_what_is_pending(rest, me, d, r.key);
        let (before, e) = releases(rest, me, d);
        let (all, f) = releases(rows, me, d);
        assert forall|j: int| 0 <= j < rest.len() implies (#[trigger] rest[j]).key != r.key by {
            assert(rows[j].key != rows[rows.len() - 1].key);
        }
        assert(pass::pending_of(e, r.key) == pass::pending_of(d, r.key));
        assert forall|i: int| 0 <= i < all.len() implies (#[trigger] all[i]).pending
            == pass::pending_of(d, all[i].key) by {
            if i < before.len() {
                assert(all[i] == before[i]);
            }
        }
        assert forall|i: int| 0 <= i < all.len() implies exists|j: int|
            0 <= j < rows.len() && (#[trigger] rows[j]).key == (#[trigger] all[i]).key
                && rows[j].owner == Some(me) && !rows[j].completed by {
            if i < before.len() {
                assert(all[i] == before[i]);
                let j = choose|j: int|
                    0 <= j < rest.len() && (#[trigger] rest[j]).key == before[i].key
                        && rest[j].owner == Some(me) && !rest[j].completed;
                assert(rows[j].key == all[i].key);
            } else {
                assert(rows[rows.len() - 1].key == all[i].key);
            }
        }
        assert((exists|j: int|
            0 <= j < rows.len() && (#[trigger] rows[j]).key == key && rows[j].owner == Some(me)
                && !rows[j].completed) <==> (exists|j: int|
            0 <= j < rest.len() && (#[trigger] rest[j]).key == key && rest[j].owner == Some(me)
                && !rest[j].completed) || (r.key == key && r.owner == Some(me) && !r.completed)) by {
            if exists|j: int|
                0 <= j < rows.len() && (#[trigger] rows[j]).key == key && rows[j].owner == Some(me)
                    && !rows[j].completed {
                let j = choose|j: int|
                    0 <= j < rows.len() && (#[trigger] rows[j]).key == key && rows[j].owner
                        == Some(me) && !rows[j].completed;
                if j < rest.len() {
                    assert(rest[j].key == key);
                }
            }
            if exists|j: int|
                0 <= j < rest.len() && (#[trigger] rest[j]).key == key && rest[j].owner == Some(me)
                    && !rest[j].completed {
                let j = choose|j: int|
                    0 <= j < rest.len() && (#[trigger] rest[j]).key == key && rest[j].owner
                        == Some(me) && !rest[j].completed;
                assert(rows[j].key == key);
            }
            if r.key == key {
                assert(rows[rows.len() - 1].key == key);
            }
        }
    }
}

/// The row is unfinished and under the name `me`.
pub open spec fn is_mine(r: RawLease, me: Seq<char>) -> bool {
    !r.completed && (match r.owner {
        Some(o) => o@ == me,
        None => false,
    })
}

/// The row is that of a shard, and neither the leader's nor a heartbeat.
pub open spec fn is_of_shard(r: RawLease) -> bool {
    r.lease_key@ != "__shard_sync_leader__"@ && !"__hb__:"@.is_prefix_of(r.lease_key@)
}

/// How many of the first `i` rows are unfinished and under the name `me`.
pub open spec fn mine_before(rows: Seq<RawLease>, me: Seq<char>, i: int) -> int
    decreases i,
{
    if i <= 0 {
        0
    } else {
        mine_before(rows, me, i - 1) + (if is_mine(rows[i - 1], me) {
            1int
        } else {
            0int
        })
    }
}

proof fn lemma_releases(rows: Seq<RawLease>, me: Seq<char>, d: Option<Deferral>, i: int)
    requires
        0 <= i <= rows.len(),
    ensures
        ({
            let out = releases(full_rows(rows.take(i)), me, d).0;
            &&& out.len() == mine_before(rows, me, i)
            &&& forall|k: int|
                0 <= k < i && is_mine(#[trigger] rows[k], me) ==> {
                    let at = mine_before(rows, me, k);
                    0 <= at < out.len() && out[at].key == rows[k].lease_key@ && out[at].counter
                        == rows[k].lease_counter
                }
        }),
    decreases i,
{
    let t = full_rows(rows.take(i));
    if i > 0 {
        lemma_releases(rows, me, d, i - 1);
        assert(t.drop_last() =~= full_rows(rows.take(i - 1)));
        assert(t.last() == full(rows[i - 1]));
        let before = releases(t.drop_last(), me, d).0;
        let out = releases(t, me, d).0;
        assert forall|k: int| 0 <= k < i && is_mine(#[trigger] rows[k], me) implies {
            let at = mine_before(rows, me, k);
            0 <= at < out.len() && out[at].key == rows[k].lease_key@ && out[at].counter
                == rows[k].lease_counter
        } by {
            if k < i - 1 {
                assert(out[mine_before(rows, me, k)] == before[mine_before(rows, me, k)]);
            }
        }
    }
}

/// Every unfinished lease under the name of a worker is released, with the
/// counter that the scan shows, whatever its checkpoint and whatever is pending:
/// one release for each such row, in the order of the rows, and none besides.
pub proof fn law_every_lease_is_released(rows: Seq<RawLease>, me: Seq<char>, d: Option<Deferral>)
    ensures
        releases(full_rows(rows), me, d).0.len() == mine_before(rows, me, rows.len() as int),
        forall|k: int|
            0 <= k < rows.len() && is_mine(#[trigger] rows[k], me) ==> {
                let at = mine_before(rows, me, k);
                &&& 0 <= at < releases(full_rows(rows), me, d).0.len()
                &&& releases(full_rows(rows), me, d).0[at].key == rows[k].lease_key@
                &&& releases(full_rows(rows), me, d).0[at].counter == rows[k].lease_counter
            },
{
    lemma_releases(rows, me, d, rows.len() as int);
    assert(rows.take(rows.len() as int) =~= rows);
}

/// What is pending of a lease that is released goes with the release, and
/// nothing of it stays behind; what is pending of any other lease stays.
pub proof fn law_what_is_pending_goes_with_the_release(
    rows: Seq<RawLease>,
    me: Seq<char>,
    d: Deferral,
    k: int,
    other: Seq<char>,
)
    requires
        forall|i: int, j: int|
            0 <= i < j < rows.len() ==> (#[trigger] rows[i]).lease_key@ != (
            #[trigger] rows[j]).lease_key@,
        0 <= k < rows.len(),
        is_mine(rows[k], me),
        forall|i: int| 0 <= i < rows.len() ==> (#[trigger] rows[i]).lease_key@ != other,
    ensures
        ({
            let key = rows[k].lease_key@;
            let (out, left) = releases(full_rows(rows), me, Some(d));
            let at = mine_before(rows, me, k);
            let pending = if d.shards.contains_key(key) {
                d.shards[key].ack
            } else {
                None
            };
            &&& 0 <= at < out.len()
            &&& out[at].pending == pending
            &&& left matches Some(e) && !(e.shards.contains_key(key) && e.shards[key].ack is Some)
            &&& left matches Some(e) && e.pending(other) == d.pending(other)
        }),
{
    let t = full_rows(rows);
    let key = rows[k].lease_key@;
    assert(distinct_keys(t)) by {
        assert forall|i: int, j: int| 0 <= i < j < t.len() implies (#[trigger] t[i]).key != (
        #[trigger] t[j]).key by {
            assert(t[i] == full(rows[i]) && t[j] == full(rows[j]));
            assert(rows[i].lease_key@ != rows[j].lease_key@);
        }
    }
    assert(t[k] == full(rows[k]));
    assert(t[k].key == key);
    law_every_lease_is_released(rows, me, Some(d));
    law_a_release_flushes_what_is_pending(t, me, Some(d), key);
    law_a_release_flushes_what_is_pending(t, me, Some(d), other);
    lemma_releases_keep_deferral(t, me, Some(d));
    assert forall|j: int| 0 <= j < t.len() implies (#[trigger] t[j]).key != other by {
        assert(t[j] == full(rows[j]));
    }
}

proof fn lemma_releases_keep_deferral(rows: Seq<FullRow>, me: Seq<char>, d: Option<Deferral>)
    ensures
        releases(rows, me, d).1 is Some <==> d is Some,
    decreases rows.len(),
{
    if rows.len() > 0 {
        lemma_releases_keep_deferral(rows.drop_last(), me, d);
    }
}

/// The rows of a scan have distinct keys.
pub open spec fn is_keyed(rows: Seq<RawLease>) -> bool {
    forall|i: int, j: int|
        0 <= i < j < rows.len() ==> (#[trigger] rows[i]).lease_key@ != (
        #[trigger] rows[j]).lease_key@
}

/// A parent does not hold its children back: it is completed, or has no row.
pub open spec fn is_out_of_the_way(rows: Seq<RawLease>, parent: Seq<char>) -> bool {
    forall|j: int|
        0 <= j < rows.len() && (#[trigger] rows[j]).lease_key@ == parent && is_of_shard(rows[j])
            ==> rows[j].completed
}

/// The shard of the row can be read by `me`: it is unfinished and under the name
/// `me`, and no parent of it holds it back.
pub open spec fn is_ripe(rows: Seq<RawLease>, r: RawLease, me: Seq<char>) -> bool {
    &&& is_of_shard(r)
    &&& is_mine(r, me)
    &&& forall|p: int|
        0 <= p < r.parents@.len() ==> is_out_of_the_way(rows, (#[trigger] r.parents@[p])@)
}

proof fn lemma_held_entry(rows: Seq<RawLease>, me: Seq<char>, i: int, k: int)
    requires
        is_keyed(rows),
        0 <= k < i <= rows.len(),
        is_of_shard(rows[k]),
        is_mine(rows[k], me),
    ensures
        held(full_rows(rows.take(i)), me).contains_key(rows[k].lease_key@),
        held(full_rows(rows.take(i)), me)[rows[k].lease_key@] == (OwnedModel {
            shard: rows[k].lease_key@,
            counter: rows[k].lease_counter,
            checkpoint: full(rows[k]).checkpoint,
        }),
    decreases i,
{
    let t = full_rows(rows.take(i));
    assert(t.drop_last() =~= full_rows(rows.take(i - 1)));
    assert(t.last() == full(rows[i - 1]));
    if k < i - 1 {
        lemma_held_entry(rows, me, i - 1, k);
        assert(rows[k].lease_key@ != rows[i - 1].lease_key@);
    }
}

proof fn lemma_completed_shards(rows: Seq<RawLease>, key: Seq<char>)
    ensures
        completed_shards(full_rows(rows)).contains(key) <==> exists|j: int|
            0 <= j < rows.len() && (#[trigger] rows[j]).lease_key@ == key && is_of_shard(rows[j])
                && rows[j].completed,
        worker::graph_ids(graph_of(full_rows(rows))).contains(key) <==> exists|j: int|
            0 <= j < rows.len() && (#[trigger] rows[j]).lease_key@ == key && is_of_shard(rows[j]),
    decreases rows.len(),
{
    reveal(Seq::filter);
    let t = full_rows(rows);
    if rows.len() > 0 {
        let rest = rows.drop_last();
        let last = rows[rows.len() - 1];
        lemma_completed_shards(rest, key);
        assert(t.drop_last() =~= full_rows(rest));
        assert(t.last() == full(last));
        assert(leader::names_shard(t.last().key) == is_of_shard(last));
        if is_of_shard(last) {
            let node = ShardNode { id: last.lease_key@, parents: t.last().parents };
            assert(graph_of(t) =~= graph_of(full_rows(rest)).push(node));
            assert(graph_of(t).drop_last() =~= graph_of(full_rows(rest)));
        }
        assert forall|j: int| 0 <= j < rest.len() implies #[trigger] rest[j] == rows[j] by {}
        if exists|j: int|
            0 <= j < rest.len() && (#[trigger] rest[j]).lease_key@ == key && is_of_shard(rest[j])
                && rest[j].completed {
            let j = choose|j: int|
                0 <= j < rest.len() && (#[trigger] rest[j]).lease_key@ == key && is_of_shard(rest[j])
                    && rest[j].completed;
            assert(rows[j].lease_key@ == key);
        }
        if exists|j: int|
            0 <= j < rest.len() && (#[trigger] rest[j]).lease_key@ == key && is_of_shard(rest[j]) {
            let j = choose|j: int|
                0 <= j < rest.len() && (#[trigger] rest[j]).lease_key@ == key && is_of_shard(
                    rest[j],
                );
            assert(rows[j].lease_key@ == key);
        }
        if exists|j: int|
            0 <= j < rows.len() && (#[trigger] rows[j]).lease_key@ == key && is_of_shard(rows[j])
                && rows[j].completed {
            let j = choose|j: int|
                0 <= j < rows.len() && (#[trigger] rows[j]).lease_key@ == key && is_of_shard(rows[j])
                    && rows[j].completed;
            if j < rest.len() {
                assert(rest[j].lease_key@ == key);
            }
        }
        if exists|j: int|
            0 <= j < rows.len() && (#[trigger] rows[j]).lease_key@ == key && is_of_shard(rows[j]) {
            let j = choose|j: int|
                0 <= j < rows.len() && (#[trigger] rows[j]).lease_key@ == key && is_of_shard(
                    rows[j],
                );
            if j < rest.len() {
                assert(rest[j].lease_key@ == key);
            }
        }
    }
}

proof fn lemma_ready_is_ripe(rows: Seq<RawLease>, r: RawLease, me: Seq<char>)
    requires
        is_keyed(rows),
        rows.contains(r),
        is_of_shard(r),
        is_mine(r, me),
    ensures
        worker::is_ready(
            ShardNode { id: r.lease_key@, parents: full(r).parents },
            completed_shards(full_rows(rows)),
            worker::graph_ids(graph_of(full_rows(rows))),
        ) == is_ripe(rows, r, me),
{
    let done = completed_shards(full_rows(rows));
    let known = worker::graph_ids(graph_of(full_rows(rows)));
    let node = ShardNode { id: r.lease_key@, parents: full(r).parents };
    lemma_completed_shards(rows, r.lease_key@);
    let a = rows.index_of(r);
    assert(!done.contains(r.lease_key@)) by {
        if done.contains(r.lease_key@) {
            let j = choose|j: int|
                0 <= j < rows.len() && (#[trigger] rows[j]).lease_key@ == r.lease_key@ && is_of_shard(
                    rows[j],
                ) && rows[j].completed;
            if j < a {
                assert(rows[j].lease_key@ != rows[a].lease_key@);
            } else if a < j {
                assert(rows[a].lease_key@ != rows[j].lease_key@);
            }
        }
    }
    assert forall|p: int| 0 <= p < node.parents.len() implies (done.contains(
        #[trigger] node.parents[p],
    ) || !known.contains(node.parents[p])) == is_out_of_the_way(rows, r.parents@[p]@) by {
        let key = r.parents@[p]@;
        assert(node.parents[p] == key);
        lemma_completed_shards(rows, key);
        if done.contains(key) {
            let j = choose|j: int|
                0 <= j < rows.len() && (#[trigger] rows[j]).lease_key@ == key && is_of_shard(rows[j])
                    && rows[j].completed;
            assert forall|i: int|
                0 <= i < rows.len() && (#[trigger] rows[i]).lease_key@ == key && is_of_shard(rows[i])
                implies rows[i].completed by {
                if i < j {
                    assert(rows[i].lease_key@ != rows[j].lease_key@);
                } else if j < i {
                    assert(rows[j].lease_key@ != rows[i].lease_key@);
                }
            }
        } else if known.contains(key) {
            let j = choose|j: int|
                0 <= j < rows.len() && (#[trigger] rows[j]).lease_key@ == key && is_of_shard(
                    rows[j],
                );
            assert(!rows[j].completed);
        }
    }
    if is_ripe(rows, r, me) {
        assert forall|p: int| 0 <= p < node.parents.len() implies done.contains(
            #[trigger] node.parents[p],
        ) || !known.contains(node.parents[p]) by {
            assert(is_out_of_the_way(rows, r.parents@[p]@));
        }
    }
    if worker::is_ready(node, done, known) {
        assert forall|p: int| 0 <= p < r.parents@.len() implies is_out_of_the_way(
            rows,
            (#[trigger] r.parents@[p])@,
        ) by {
            assert(done.contains(node.parents[p]) || !known.contains(node.parents[p]));
        }
    }
}

/// A cycle works on every shard that is ripe, from the counter and the checkpoint
/// that its row shows, and on nothing else.
pub proof fn law_a_cycle_works_on_every_ripe_shard(
    rows: Seq<RawLease>,
    me: Seq<char>,
    w: OwnedModel,
)
    requires
        is_keyed(rows),
    ensures
        cycle_work(full_rows(rows), me).contains(w) <==> exists|k: int|
            0 <= k < rows.len() && is_ripe(rows, #[trigger] rows[k], me) && w.shard
                == rows[k].lease_key@ && w.counter == rows[k].lease_counter && w.checkpoint == (
            match rows[k].checkpoint {
                Some(c) => Some(c@),
                None => None,
            }),
{
    let t = full_rows(rows);
    let g = graph_of(t);
    let keep = |n: ShardNode|
        held(t, me).contains_key(n.id) && worker::is_ready(
            n,
            completed_shards(t),
            worker::graph_ids(g),
        );
    let work = cycle_work(t, me);
    assert(rows.take(rows.len() as int) =~= rows);
    let shard_row = |r: FullRow| leader::names_shard(r.key);
    if work.contains(w) {
        let i = work.index_of(w);
        let n = g.filter(keep)[i];
        g.lemma_filter_pred(keep, i);
        assert(g.filter(keep).contains(n));
        g.lemma_filter_contains_rev(keep, n);
        let a = g.index_of(n);
        let f = t.filter(shard_row);
        assert(f.contains(f[a]));
        t.lemma_filter_contains_rev(shard_row, f[a]);
        let k = t.index_of(f[a]);
        assert(t[k] == full(rows[k]));
        t.lemma_filter_pred(shard_row, a);
        assert(n == (ShardNode { id: t[k].key, parents: t[k].parents }));
        lemma_held_rows(t, me, n.id);
        let j = choose|j: int| 0 <= j < t.len() && holds(#[trigger] t[j], me) && t[j].key == n.id;
        assert(t[j] == full(rows[j]));
        assert(rows[j].lease_key@ == rows[k].lease_key@);
        assert(j == k);
        assert(is_mine(rows[k], me));
        lemma_held_entry(rows, me, rows.len() as int, k);
        lemma_ready_is_ripe(rows, rows[k], me);
    }
    if exists|k: int|
        0 <= k < rows.len() && is_ripe(rows, #[trigger] rows[k], me) && w.shard
            == rows[k].lease_key@ && w.counter == rows[k].lease_counter && w.checkpoint == full(
            rows[k],
        ).checkpoint {
        let k = choose|k: int|
            0 <= k < rows.len() && is_ripe(rows, #[trigger] rows[k], me) && w.shard
                == rows[k].lease_key@ && w.counter == rows[k].lease_counter && w.checkpoint == full(
                rows[k],
            ).checkpoint;
        lemma_held_entry(rows, me, rows.len() as int, k);
        lemma_ready_is_ripe(rows, rows[k], me);
        assert(t[k] == full(rows[k]));
        t.lemma_filter_contains(shard_row, k);
        let f = t.filter(shard_row);
        let a = f.index_of(t[k]);
        let n = ShardNode { id: t[k].key, parents: t[k].parents };
        assert(g[a] == n);
        g.lemma_filter_contains(keep, a);
        let b = g.filter(keep).index_of(n);
        assert(work[b] == held(t, me)[n.id]);
        assert(work[b] == w);
    }
}

/// The fleet is done exactly if the scan shows a shard and no unfinished one.
pub proof fn law_the_fleet_is_done_once_no_shard_is_unfinished(rows: Seq<RawLease>)
    requires
        is_keyed(rows),
    ensures
        worker::all_done(graph_of(full_rows(rows)), completed_shards(full_rows(rows))) <==> {
            &&& exists|i: int| 0 <= i < rows.len() && is_of_shard(#[trigger] rows[i])
            &&& forall|i: int|
                0 <= i < rows.len() && is_of_shard(#[trigger] rows[i]) ==> rows[i].completed
        },
{
    let g = graph_of(full_rows(rows));
    let done = completed_shards(full_rows(rows));
    if worker::all_done(g, done) {
        let first = lemma_row_of_node(rows, 0, Seq::empty());
        assert(is_of_shard(rows[first]));
        assert forall|i: int|
            0 <= i < rows.len() && is_of_shard(#[trigger] rows[i]) implies rows[i].completed by {
            let a = lemma_node_of_row(rows, i, Seq::empty());
            assert(done.contains(g[a].id));
            lemma_completed_shards(rows, rows[i].lease_key@);
            let j = choose|j: int|
                0 <= j < rows.len() && (#[trigger] rows[j]).lease_key@ == rows[i].lease_key@
                    && is_of_shard(rows[j]) && rows[j].completed;
            if i < j {
                assert(rows[i].lease_key@ != rows[j].lease_key@);
            } else if j < i {
                assert(rows[j].lease_key@ != rows[i].lease_key@);
            }
        }
    }
    if {
        &&& exists|i: int| 0 <= i < rows.len() && is_of_shard(#[trigger] rows[i])
        &&& forall|i: int|
            0 <= i < rows.len() && is_of_shard(#[trigger] rows[i]) ==> rows[i].completed
    } {
        let some = choose|i: int| 0 <= i < rows.len() && is_of_shard(#[trigger] rows[i]);
        let node = lemma_node_of_row(rows, some, Seq::empty());
        assert(g.len() > 0);
        assert forall|a: int| 0 <= a < g.len() implies done.contains((#[trigger] g[a]).id) by {
            let i = lemma_row_of_node(rows, a, Seq::empty());
            lemma_completed_shards(rows, g[a].id);
            assert(rows[i].lease_key@ == g[a].id && rows[i].completed);
        }
    }
}

/// A worker holds, with counter and checkpoint, exactly the unfinished shards
/// whose rows are under its name.
pub proof fn law_what_a_worker_holds(rows: Seq<RawLease>, me: Seq<char>, k: int)
    requires
        is_keyed(rows),
        0 <= k < rows.len(),
    ensures
        held(full_rows(rows), me).contains_key(rows[k].lease_key@) <==> is_of_shard(rows[k])
            && is_mine(rows[k], me),
        is_of_shard(rows[k]) && is_mine(rows[k], me) ==> {
            let o = held(full_rows(rows), me)[rows[k].lease_key@];
            &&& o.shard == rows[k].lease_key@
            &&& o.counter == rows[k].lease_counter
            &&& o.checkpoint == (match rows[k].checkpoint {
                Some(c) => Some(c@),
                None => None,
            })
        },
{
    let t = full_rows(rows);
    assert(rows.take(rows.len() as int) =~= rows);
    if is_of_shard(rows[k]) && is_mine(rows[k], me) {
        lemma_held_entry(rows, me, rows.len() as int, k);
    }
    lemma_held_rows(t, me, rows[k].lease_key@);
    if held(t, me).contains_key(rows[k].lease_key@) {
        let j = choose|j: int|
            0 <= j < t.len() && holds(#[trigger] t[j], me) && t[j].key == rows[k].lease_key@;
        assert(t[j] == full(rows[j]));
        if j < k {
            assert(rows[j].lease_key@ != rows[k].lease_key@);
        } else if k < j {
            assert(rows[k].lease_key@ != rows[j].lease_key@);
        }
    }
}

/// The row names `key` as a parent.
pub open spec fn is_heir_of(r: RawLease, key: Seq<char>) -> bool {
    exists|p: int| 0 <= p < r.parents@.len() && (#[trigger] r.parents@[p])@ == key
}

/// The shard of the row is under way or over: it is completed, or its checkpoint
/// is that of a record.
pub open spec fn is_under_way(r: RawLease) -> bool {
    r.completed || (r.checkpoint is Some && r.checkpoint->0@ != "LATEST"@)
}

proof fn lemma_state_of(rows: Seq<RawLease>, i: int)
    requires
        is_keyed(rows),
        0 <= i < rows.len(),
        is_of_shard(rows[i]),
    ensures
        lease_states(full_rows(rows)).contains_key(rows[i].lease_key@),
        lease_states(full_rows(rows))[rows[i].lease_key@].completed == rows[i].completed,
        lease_states(full_rows(rows))[rows[i].lease_key@].processing == is_under_way(rows[i]),
    decreases rows.len(),
{
    let t = full_rows(rows);
    let rest = rows.drop_last();
    assert(t.drop_last() =~= full_rows(rest));
    assert(t.last() == full(rows.last()));
    if i < rest.len() {
        assert forall|a: int, b: int| 0 <= a < b < rest.len() implies (
        #[trigger] rest[a]).lease_key@ != (#[trigger] rest[b]).lease_key@ by {
            assert(rows[a].lease_key@ != rows[b].lease_key@);
        }
        lemma_state_of(rest, i);
        assert(rest[i] == rows[i]);
        assert(rows[i].lease_key@ != rows[rows.len() - 1].lease_key@);
    }
}

/// The leader deletes the row of a shard exactly if it is completed, some shard
/// names it as a parent, and every one that does so is under way or over.
pub proof fn law_the_leader_deletes_what_nobody_needs(rows: Seq<RawLease>, i: int)
    requires
        is_keyed(rows),
        0 <= i < rows.len(),
        is_of_shard(rows[i]),
    ensures
        cleanup::deletable(graph_of(full_rows(rows)), lease_states(full_rows(rows))).contains(
            rows[i].lease_key@,
        ) <==> {
            &&& rows[i].completed
            &&& exists|j: int|
                0 <= j < rows.len() && is_of_shard(#[trigger] rows[j]) && is_heir_of(
                    rows[j],
                    rows[i].lease_key@,
                )
            &&& forall|j: int|
                0 <= j < rows.len() && is_of_shard(#[trigger] rows[j]) && is_heir_of(
                    rows[j],
                    rows[i].lease_key@,
                ) ==> is_under_way(rows[j])
        },
{
    let t = full_rows(rows);
    let g = graph_of(t);
    let state = lease_states(t);
    let key = rows[i].lease_key@;
    cleanup::law_a_tombstone_goes_once_all_children_started(g, state, key);
    lemma_state_of(rows, i);
    let own = lemma_node_of_row(rows, i, key);
    assert(g[own].id == key);
    if cleanup::deletable(g, state).contains(key) {
        let a = choose|a: int| 0 <= a < g.len() && (#[trigger] g[a]).parents.contains(key);
        let j = lemma_row_of_node(rows, a, key);
        assert(is_of_shard(rows[j]) && is_heir_of(rows[j], key));
        assert forall|j: int|
            0 <= j < rows.len() && is_of_shard(#[trigger] rows[j]) && is_heir_of(
                rows[j],
                key,
            ) implies is_under_way(rows[j]) by {
            let a = lemma_node_of_row(rows, j, key);
            assert(g[a].parents.contains(key));
            lemma_state_of(rows, j);
        }
    }
    if {
        &&& rows[i].completed
        &&& exists|j: int|
            0 <= j < rows.len() && is_of_shard(#[trigger] rows[j]) && is_heir_of(rows[j], key)
        &&& forall|j: int|
            0 <= j < rows.len() && is_of_shard(#[trigger] rows[j]) && is_heir_of(rows[j], key)
                ==> is_under_way(rows[j])
    } {
        let j = choose|j: int|
            0 <= j < rows.len() && is_of_shard(#[trigger] rows[j]) && is_heir_of(rows[j], key);
        let a = lemma_node_of_row(rows, j, key);
        assert(g[a].parents.contains(key));
        assert forall|a: int| 0 <= a < g.len() && (#[trigger] g[a]).parents.contains(key) implies
            state.contains_key(g[a].id) && (state[g[a].id].processing || state[g[a].id].completed) by {
            let j = lemma_row_of_node(rows, a, key);
            assert(is_under_way(rows[j]));
            lemma_state_of(rows, j);
        }
    }
}

/// The node of a shard row in the graph.
proof fn lemma_node_of_row(rows: Seq<RawLease>, j: int, key: Seq<char>) -> (a: int)
    requires
        0 <= j < rows.len(),
        is_of_shard(rows[j]),
    ensures
        0 <= a < graph_of(full_rows(rows)).len(),
        graph_of(full_rows(rows))[a].id == rows[j].lease_key@,
        graph_of(full_rows(rows))[a].parents.contains(key) == is_heir_of(rows[j], key),
{
    let t = full_rows(rows);
    let keep = |r: FullRow| leader::names_shard(r.key);
    assert(t[j] == full(rows[j]));
    t.lemma_filter_contains(keep, j);
    lemma_heir(rows[j], key);
    t.filter(keep).index_of(t[j])
}

/// The row of a node of the graph.
proof fn lemma_row_of_node(rows: Seq<RawLease>, a: int, key: Seq<char>) -> (j: int)
    requires
        0 <= a < graph_of(full_rows(rows)).len(),
    ensures
        0 <= j < rows.len(),
        is_of_shard(rows[j]),
        graph_of(full_rows(rows))[a].id == rows[j].lease_key@,
        graph_of(full_rows(rows))[a].parents.contains(key) == is_heir_of(rows[j], key),
{
    let t = full_rows(rows);
    let keep = |r: FullRow| leader::names_shard(r.key);
    let f = t.filter(keep);
    t.lemma_filter_pred(keep, a);
    assert(f.contains(f[a]));
    t.lemma_filter_contains_rev(keep, f[a]);
    let j = t.index_of(f[a]);
    assert(t[j] == full(rows[j]));
    lemma_heir(rows[j], key);
    j
}

proof fn lemma_heir(r: RawLease, key: Seq<char>)
    ensures
        full(r).parents.contains(key) == is_heir_of(r, key),
{
    let p = full(r).parents;
    if p.contains(key) {
        assert(r.parents@[p.index_of(key)]@ == key);
    }
    if is_heir_of(r, key) {
        let k = choose|k: int| 0 <= k < r.parents@.len() && (#[trigger] r.parents@[k])@ == key;
        assert(p[k] == key);
    }
}

/// A worker owns the shards of the unfinished rows under its name, in the order
/// of the scan; what is shared out among the workers is every row but that of the
/// leader, as it stands.
pub proof fn law_what_a_worker_owns_and_what_is_shared(rows: Seq<RawLease>, me: Seq<char>, i: int)
    ensures
        ({
            let owns = |r: RawLease| is_of_shard(r) && is_mine(r, me);
            let out = row_keys(full_rows(rows).filter(|x: FullRow| holds(x, me)));
            let at = collections::matching_before(rows, owns, i) as int;
            &&& out.len() == collections::matching_before(rows, owns, rows.len() as int)
            &&& 0 <= i < rows.len() && owns(rows[i]) ==> at < out.len() && out[at]
                == rows[i].lease_key@
        }),
        ({
            let other = |r: RawLease| r.lease_key@ != "__shard_sync_leader__"@;
            let out = without_leader(coordinator::raw_rows(rows));
            let at = collections::matching_before(rows, other, i) as int;
            &&& out.len() == collections::matching_before(rows, other, rows.len() as int)
            &&& 0 <= i < rows.len() && other(rows[i]) ==> {
                &&& at < out.len()
                &&& out[at].key == rows[i].lease_key@
                &&& out[at].counter == rows[i].lease_counter
                &&& out[at].completed == rows[i].completed
                &&& out[at].owner is Some == rows[i].owner is Some
                &&& out[at].owner is Some ==> out[at].owner->0 == rows[i].owner->0@
            }
        }),
{
    let owns = |r: RawLease| is_of_shard(r) && is_mine(r, me);
    let keep = |x: FullRow| holds(x, me);
    let t = full_rows(rows);
    assert forall|k: int|
        #![trigger t[k]]
        #![trigger rows[k]]
        0 <= k < t.len() implies keep(t[k]) == owns(rows[k]) by {
        assert(t[k] == full(rows[k]));
    }
    collections::lemma_filter_places(t, keep, rows, owns, i);
    let other = |r: RawLease| r.lease_key@ != "__shard_sync_leader__"@;
    let keep_other = |r: RawRow| r.key != leader::leader_key();
    let u = coordinator::raw_rows(rows);
    assert forall|k: int|
        #![trigger u[k]]
        #![trigger rows[k]]
        0 <= k < u.len() implies keep_other(u[k]) == other(rows[k]) by {
        assert(u[k] == rows[k]@);
    }
    collections::lemma_filter_places(u, keep_other, rows, other, i);
    if 0 <= i < rows.len() {
        assert(u[i] == rows[i]@);
        assert(t[i] == full(rows[i]));
    }
}

/// Releases are what they stand for, in order.
pub proof fn law_releases_are_as_they_stand(s: Seq<Release>, i: int)
    requires
        0 <= i < s.len(),
    ensures
        release_models(s).len() == s.len(),
        release_models(s)[i].key == s[i].lease_key@,
        release_models(s)[i].counter == s[i].counter,
        release_models(s)[i].pending == (match s[i].pending {
            Some(p) => Some(p@),
            None => None,
        }),
{
}

} // verus!
