//! Single-leader shard discovery: one worker describes the stream and publishes
//! each shard, with its parents, as a lease row. Every other worker rebuilds the
//! shard graph from the lease table.

use vstd::prelude::*;

use crate::collections::clone_strings;
use crate::collections;
use crate::coordinator::{is_heartbeat_key, RawLease};
use crate::coordinator;
use crate::text;

verus! {

/// The key of the lease that elects the shard-sync leader. It is no shard.
pub const LEADER_LEASE_KEY: &'static str = "__shard_sync_leader__";

/// The text of the leader key.
pub open spec fn leader_key() -> Seq<char> {
    "__shard_sync_leader__"@
}

/// A shard and its parents: none for a root, one for a split child, two for a
/// merge child.
#[derive(Clone, Debug)]
pub struct ShardMeta {
    pub id: String,
    pub parents: Vec<String>,
}

/// A node of the shard graph.
pub struct ShardNode {
    pub id: Seq<char>,
    pub parents: Seq<Seq<char>>,
}

impl View for ShardMeta {
    type V = ShardNode;

    open spec fn view(&self) -> ShardNode {
        ShardNode { id: self.id@, parents: collections::texts(self.parents@) }
    }
}

/// The nodes of a shard graph.
pub open spec fn nodes(s: Seq<ShardMeta>) -> Seq<ShardNode> {
    s.map_values(|m: ShardMeta| m@)
}

impl ShardMeta {
    /// A copy.
    pub fn copy(&self) -> (r: ShardMeta)
        ensures
            r@ == self@,
    {
        ShardMeta { id: self.id.clone(), parents: clone_strings(&self.parents) }
    }
}

/// `key` is that of a shard lease: neither the leader's nor a heartbeat's.
pub open spec fn names_shard(key: Seq<char>) -> bool {
    key != leader_key() && !coordinator::names_heartbeat(key)
}

/// Is `key` that of a shard lease?
pub fn is_shard_key(key: &str) -> (r: bool)
    ensures
        r == names_shard(key@),
{
    !text::same(key, LEADER_LEASE_KEY) && !is_heartbeat_key(key)
}

/// The node that a lease row publishes.
pub open spec fn published(r: RawLease) -> ShardNode {
    ShardNode { id: r.lease_key@, parents: collections::texts(r.parents@) }
}

/// The shard graph that a scan of the lease table publishes.
pub open spec fn published_graph(rows: Seq<RawLease>) -> Seq<ShardNode> {
    rows.filter(|r: RawLease| names_shard(r.lease_key@)).map_values(|r: RawLease| published(r))
}

/// Rebuild the shard graph from lease rows, skipping those that are no shard.
pub fn shard_metas_from_leases(rows: &[RawLease]) -> (r: Vec<ShardMeta>)
    ensures
        nodes(r@) == published_graph(rows@),
{
    let ghost keep = |x: RawLease| names_shard(x.lease_key@);
    let ghost image = |x: RawLease| published(x);
    let mut r: Vec<ShardMeta> = Vec::new();
    let mut i: usize = 0;
    assert(nodes(r@) =~= rows@.take(0).filter(keep).map_values(image)) by {
        reveal(Seq::filter);
    }
    while i < rows.len()
        invariant
            i <= rows.len(),
            keep == (|x: RawLease| names_shard(x.lease_key@)),
            image == (|x: RawLease| published(x)),
            nodes(r@) == rows@.take(i as int).filter(keep).map_values(image),
        decreases rows.len() - i,
    {
        proof {
            collections::lemma_filter_step(rows@, i as int, keep);
        }
        if is_shard_key(rows[i].lease_key.as_str()) {
            let meta = ShardMeta {
                id: rows[i].lease_key.clone(),
                parents: clone_strings(&rows[i].parents),
            };
            let ghost before = r@;
            r.push(meta);
            assert(nodes(r@) =~= nodes(before).push(published(rows@[i as int])));
            assert(rows@.take(i + 1).filter(keep).map_values(image) =~= rows@.take(i as int).filter(
                keep,
            ).map_values(image).push(published(rows@[i as int])));
        }
        i = i + 1;
    }
    assert(rows@.take(i as int) =~= rows@);
    r
}

/// The graph of a lease table holds neither the leader's row nor a heartbeat.
pub proof fn law_graph_holds_shards_only(rows: Seq<RawLease>, i: int)
    requires
        0 <= i < published_graph(rows).len(),
    ensures
        names_shard(published_graph(rows)[i].id),
{
    rows.lemma_filter_pred(|r: RawLease| names_shard(r.lease_key@), i);
}

/// Every row that is neither the leader's nor a heartbeat is in the graph, in
/// the order of the scan, with its own key and parents; and nothing else is.
pub proof fn law_every_shard_row_is_in_the_graph(rows: Seq<RawLease>, i: int)
    ensures
        ({
            let is_shard = |r: RawLease|
                r.lease_key@ != "__shard_sync_leader__"@ && !coordinator::is_beat(r);
            let graph = published_graph(rows);
            let at = collections::matching_before(rows, is_shard, i) as int;
            &&& graph.len() == collections::matching_before(rows, is_shard, rows.len() as int)
            &&& 0 <= i < rows.len() && is_shard(rows[i]) ==> {
                &&& at < graph.len()
                &&& graph[at].id == rows[i].lease_key@
                &&& graph[at].parents.len() == rows[i].parents@.len()
                &&& forall|k: int|
                    0 <= k < rows[i].parents@.len() ==> graph[at].parents[k]
                        == #[trigger] rows[i].parents@[k]@
            }
        }),
{
    let is_shard = |r: RawLease|
        r.lease_key@ != "__shard_sync_leader__"@ && !coordinator::is_beat(r);
    let keep = |r: RawLease| names_shard(r.lease_key@);
    assert forall|k: int| 0 <= k < rows.len() implies keep(#[trigger] rows[k]) == is_shard(
        rows[k],
    ) by {
        coordinator::lemma_beat(rows[k]);
    }
    collections::lemma_filter_places(rows, keep, rows, is_shard, i);
}

} // verus!
