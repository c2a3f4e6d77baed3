//! Which completed leases can be deleted without losing the shard lineage.
//!
//! A completed parent lease stays as a tombstone until its children are being
//! processed: deleted too early, the lineage would be found anew and replayed.

use vstd::prelude::*;

use crate::collections::{list_contains, sort_strings, StringMap};
use crate::collections;
use crate::leader::ShardMeta;
use crate::leader;

verus! {

/// What cleanup needs to know of a lease.
#[derive(Clone, Copy, Debug, PartialEq, Eq, Structural)]
pub struct LeaseState {
    pub completed: bool,
    /// The lease has made progress: a worker is processing it.
    pub processing: bool,
}

impl Default for LeaseState {
    fn default() -> (s: Self)
        ensures
            s == (LeaseState { completed: false, processing: false }),
    {
        LeaseState { completed: false, processing: false }
    }
}

/// `child` is a child of `parent`.
pub open spec fn is_child_of(child: leader::ShardNode, parent: Seq<char>) -> bool {
    child.parents.contains(parent)
}

/// The lease of `shard` is there and completed.
pub open spec fn is_done(state: Map<Seq<char>, LeaseState>, shard: Seq<char>) -> bool {
    state.contains_key(shard) && state[shard].completed
}

/// The lease of `shard` is there and processing or completed.
pub open spec fn has_started(state: Map<Seq<char>, LeaseState>, shard: Seq<char>) -> bool {
    state.contains_key(shard) && (state[shard].processing || state[shard].completed)
}

/// The lease of `shard` can be deleted: it is completed, it has children, and
/// every child has started.
pub open spec fn is_deletable(
    shards: Seq<leader::ShardNode>,
    state: Map<Seq<char>, LeaseState>,
    shard: Seq<char>,
) -> bool {
    &&& is_done(state, shard)
    &&& exists|i: int| 0 <= i < shards.len() && is_child_of(#[trigger] shards[i], shard)
    &&& forall|i: int|
        0 <= i < shards.len() && is_child_of(#[trigger] shards[i], shard) ==> has_started(
            state,
            shards[i].id,
        )
}

/// The ids of some shards.
pub open spec fn ids(s: Seq<leader::ShardNode>) -> Seq<Seq<char>> {
    s.map_values(|n: leader::ShardNode| n.id)
}

/// The ids of the shards whose leases can be deleted, in ascending order.
pub open spec fn deletable(
    shards: Seq<leader::ShardNode>,
    state: Map<Seq<char>, LeaseState>,
) -> Seq<Seq<char>> {
    collections::sorted(
        ids(shards.filter(|n: leader::ShardNode| is_deletable(shards, state, n.id))),
    )
}

fn shard_is_deletable(shards: &[ShardMeta], state: &StringMap<LeaseState>, shard: &str) -> (r: bool)
    ensures
        r == is_deletable(leader::nodes(shards@), state@, shard@),
{
    let ghost g = leader::nodes(shards@);
    match state.get(shard) {
        Some(s) => if !s.completed {
            return false;
        },
        None => return false,
    }
    let mut has_child = false;
    let mut i: usize = 0;
    while i < shards.len()
        invariant
            i <= shards.len(),
            g == leader::nodes(shards@),
            has_child == exists|k: int| 0 <= k < i && is_child_of(#[trigger] g[k], shard@),
            forall|k: int|
                0 <= k < i && is_child_of(#[trigger] g[k], shard@) ==> has_started(state@, g[k].id),
        decreases shards.len() - i,
    {
        assert(g[i as int] == shards@[i as int]@);
        if list_contains(&shards[i].parents, shard) {
            assert(is_child_of(g[i as int], shard@));
            has_child = true;
            match state.get(shards[i].id.as_str()) {
                Some(s) => if !(s.processing || s.completed) {
                    return false;
                },
                None => return false,
            }
        }
        i = i + 1;
    }
    has_child
}

/// The keys of the completed parent leases that can be deleted.
///
/// A completed shard without known children is retained, since its children
/// may not be discovered yet; so is one with a child whose lease is missing or
/// has not started.
pub fn leases_safe_to_delete(shards: &[ShardMeta], state: &StringMap<LeaseState>) -> (r: Vec<String>)
    ensures
        collections::texts(r@) == deletable(leader::nodes(shards@), state@),
{
    let ghost g = leader::nodes(shards@);
    let ghost keep = |n: leader::ShardNode| is_deletable(g, state@, n.id);
    let mut found: Vec<String> = Vec::new();
    let mut i: usize = 0;
    assert(collections::texts(found@) =~= ids(g.take(0).filter(keep))) by {
        reveal(Seq::filter);
    }
    while i < shards.len()
        invariant
            i <= shards.len(),
            g == leader::nodes(shards@),
            keep == (|n: leader::ShardNode| is_deletable(g, state@, n.id)),
            collections::texts(found@) == ids(g.take(i as int).filter(keep)),
        decreases shards.len() - i,
    {
        proof {
            collections::lemma_filter_step(g, i as int, keep);
        }
        assert(g[i as int] == shards@[i as int]@);
        if shard_is_deletable(shards, state, shards[i].id.as_str()) {
            let ghost before = found@;
            found.push(shards[i].id.clone());
            assert(collections::texts(found@) =~= collections::texts(before).push(g[i as int].id));
            assert(ids(g.take(i + 1).filter(keep)) =~= ids(g.take(i as int).filter(keep)).push(
                g[i as int].id,
            ));
        }
        i = i + 1;
    }
    assert(g.take(i as int) =~= g);
    sort_strings(&found)
}

/// Every lease to delete is a completed one of which every child has started.
pub proof fn law_deletes_only_what_is_deletable(
    shards: Seq<leader::ShardNode>,
    state: Map<Seq<char>, LeaseState>,
    shard: Seq<char>,
)
    requires
        deletable(shards, state).contains(shard),
    ensures
        is_deletable(shards, state, shard),
{
    broadcast use vstd::seq_lib::group_to_multiset_ensures;

    let keep = |n: leader::ShardNode| is_deletable(shards, state, n.id);
    let s = ids(shards.filter(keep));
    collections::lemma_sorted(s);
    assert(collections::sorted(s).to_multiset().contains(shard));
    assert(s.to_multiset().contains(shard));
    let i = s.index_of(shard);
    shards.lemma_filter_pred(keep, i);
}

/// Every deletable lease of a known shard is among those to delete.
pub proof fn law_deletes_all_that_is_deletable(
    shards: Seq<leader::ShardNode>,
    state: Map<Seq<char>, LeaseState>,
    i: int,
)
    requires
        0 <= i < shards.len(),
        is_deletable(shards, state, shards[i].id),
    ensures
        deletable(shards, state).contains(shards[i].id),
{
    broadcast use vstd::seq_lib::group_to_multiset_ensures;

    let keep = |n: leader::ShardNode| is_deletable(shards, state, n.id);
    let f = shards.filter(keep);
    let s = ids(f);
    collections::lemma_sorted(s);
    shards.lemma_filter_contains(keep, i);
    let j = f.index_of(shards[i]);
    assert(s[j] == shards[i].id);
    assert(s.to_multiset().contains(shards[i].id));
    assert(collections::sorted(s).to_multiset().contains(shards[i].id));
}

/// The order of the shards does not matter: a permuted list gives the same
/// leases to delete.
pub proof fn law_the_order_of_the_shards_does_not_matter(
    shards: Seq<leader::ShardNode>,
    permuted: Seq<leader::ShardNode>,
    state: Map<Seq<char>, LeaseState>,
)
    requires
        shards.to_multiset() == permuted.to_multiset(),
    ensures
        deletable(shards, state) == deletable(permuted, state),
{
    let keep = |n: leader::ShardNode| is_deletable(shards, state, n.id);
    let same = |n: leader::ShardNode| is_deletable(permuted, state, n.id);
    assert forall|id: Seq<char>| #[trigger]
        is_deletable(shards, state, id) == is_deletable(permuted, state, id) by {
        if is_deletable(shards, state, id) {
            lemma_permuted_deletable(shards, permuted, state, id);
        }
        if is_deletable(permuted, state, id) {
            lemma_permuted_deletable(permuted, shards, state, id);
        }
    }
    assert(keep =~= same);
    collections::lemma_permuted_filter(shards, permuted, keep);
    collections::lemma_permuted_map(
        shards.filter(keep),
        permuted.filter(keep),
        |n: leader::ShardNode| n.id,
    );
    collections::lemma_permuted_sorted(ids(shards.filter(keep)), ids(permuted.filter(keep)));
}

proof fn lemma_permuted_deletable(
    shards: Seq<leader::ShardNode>,
    permuted: Seq<leader::ShardNode>,
    state: Map<Seq<char>, LeaseState>,
    shard: Seq<char>,
)
    requires
        shards.to_multiset() == permuted.to_multiset(),
        is_deletable(shards, state, shard),
    ensures
        is_deletable(permuted, state, shard),
{
    broadcast use vstd::seq_lib::group_to_multiset_ensures;

    let i = choose|i: int| 0 <= i < shards.len() && is_child_of(#[trigger] shards[i], shard);
    assert(shards.to_multiset().contains(shards[i]));
    assert(permuted.contains(shards[i]));
    let j = permuted.index_of(shards[i]);
    assert(is_child_of(permuted[j], shard));
    assert forall|k: int|
        0 <= k < permuted.len() && is_child_of(#[trigger] permuted[k], shard) implies has_started(
        state,
        permuted[k].id,
    ) by {
        assert(permuted.to_multiset().contains(permuted[k]));
        assert(shards.contains(permuted[k]));
        let l = shards.index_of(permuted[k]);
        assert(is_child_of(shards[l], shard));
    }
}

/// The leases to delete are in ascending order, and shards with distinct ids
/// give none twice.
pub proof fn law_deletes_in_order_and_once(
    shards: Seq<leader::ShardNode>,
    state: Map<Seq<char>, LeaseState>,
)
    ensures
        collections::is_sorted(deletable(shards, state)),
        ids(shards).no_duplicates() ==> deletable(shards, state).no_duplicates(),
{
    let keep = |n: leader::ShardNode| is_deletable(shards, state, n.id);
    let found = ids(shards.filter(keep));
    collections::lemma_sorted(found);
    if ids(shards).no_duplicates() {
        lemma_filtered_ids(shards, keep);
        found.lemma_multiset_has_no_duplicates();
        deletable(shards, state).lemma_multiset_has_no_duplicates_conv();
    }
}

proof fn lemma_filtered_ids(s: Seq<leader::ShardNode>, p: spec_fn(leader::ShardNode) -> bool)
    requires
        ids(s).no_duplicates(),
    ensures
        ids(s.filter(p)).no_duplicates(),
        forall|i: int| 0 <= i < s.filter(p).len() ==> s.contains(#[trigger] s.filter(p)[i]),
    decreases s.len(),
{
    reveal(Seq::filter);
    if s.len() > 0 {
        let rest = s.drop_last();
        let last = s.last();
        assert forall|i: int, j: int| 0 <= i < rest.len() && 0 <= j < rest.len() && i != j implies ids(
            rest,
        )[i] != ids(rest)[j] by {
            assert(ids(s)[i] != ids(s)[j]);
        }
        lemma_filtered_ids(rest, p);
        let f = rest.filter(p);
        assert forall|i: int| 0 <= i < f.len() implies s.contains(#[trigger] f[i]) && f[i].id
            != last.id by {
            assert(rest.contains(f[i]));
            let k = rest.index_of(f[i]);
            assert(s[k] == f[i]);
            assert(ids(s)[k] != ids(s)[s.len() - 1]);
        }
        assert(s[s.len() - 1] == last);
        if p(last) {
            assert(ids(s.filter(p)) =~= ids(f).push(last.id));
        }
    }
}

/// A lease is deleted exactly if its shard is known and completed, some shard
/// names it as a parent, and the lease of every shard that does so is there and
/// is processing or completed.
pub proof fn law_a_tombstone_goes_once_all_children_started(
    shards: Seq<leader::ShardNode>,
    state: Map<Seq<char>, LeaseState>,
    k: Seq<char>,
)
    ensures
        deletable(shards, state).contains(k) <==> {
            &&& exists|i: int| 0 <= i < shards.len() && (#[trigger] shards[i]).id == k
            &&& state.contains_key(k) && state[k].completed
            &&& exists|i: int| 0 <= i < shards.len() && (#[trigger] shards[i]).parents.contains(k)
            &&& forall|i: int|
                0 <= i < shards.len() && (#[trigger] shards[i]).parents.contains(k)
                    ==> state.contains_key(shards[i].id) && (state[shards[i].id].processing
                    || state[shards[i].id].completed)
        },
{
    broadcast use vstd::seq_lib::group_to_multiset_ensures;

    let keep = |n: leader::ShardNode| is_deletable(shards, state, n.id);
    let f = shards.filter(keep);
    if deletable(shards, state).contains(k) {
        law_deletes_only_what_is_deletable(shards, state, k);
        collections::lemma_sorted(ids(f));
        assert(collections::sorted(ids(f)).to_multiset().contains(k));
        assert(ids(f).contains(k));
        let j = ids(f).index_of(k);
        assert(f.contains(f[j]));
        shards.lemma_filter_contains_rev(keep, f[j]);
        let i = shards.index_of(f[j]);
        assert(shards[i].id == k);
        let c = choose|c: int| 0 <= c < shards.len() && is_child_of(#[trigger] shards[c], k);
        assert(shards[c].parents.contains(k));
        assert forall|i: int|
            0 <= i < shards.len() && (#[trigger] shards[i]).parents.contains(k) implies state.contains_key(
            shards[i].id,
        ) && (state[shards[i].id].processing || state[shards[i].id].completed) by {
            assert(is_child_of(shards[i], k));
        }
    }
    if {
        &&& exists|i: int| 0 <= i < shards.len() && (#[trigger] shards[i]).id == k
        &&& state.contains_key(k) && state[k].completed
        &&& exists|i: int| 0 <= i < shards.len() && (#[trigger] shards[i]).parents.contains(k)
        &&& forall|i: int|
            0 <= i < shards.len() && (#[trigger] shards[i]).parents.contains(k)
                ==> state.contains_key(shards[i].id) && (state[shards[i].id].processing
                || state[shards[i].id].completed)
    } {
        let i = choose|i: int| 0 <= i < shards.len() && (#[trigger] shards[i]).id == k;
        let c = choose|c: int| 0 <= c < shards.len() && (#[trigger] shards[c]).parents.contains(k);
        assert(is_child_of(shards[c], k));
        assert(is_deletable(shards, state, k));
        law_deletes_all_that_is_deletable(shards, state, i);
    }
}

} // verus!
