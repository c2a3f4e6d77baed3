//! Parents before children, over the whole life of a lease table: a shard is
//! read only after each of its parents was completed, whoever leads and whoever
//! reads, and although scans of the table are out of date by the time they are
//! acted on.

use vstd::prelude::*;

use crate::fleet::cycle::FullRow;
use crate::fleet::cycle;
use crate::fleet::sync::{NewLeaseModel, SyncMemory, SyncModel, SyncStage};
use crate::fleet::sync;
use crate::leader::ShardNode;
use crate::lease_table::{ChangeModel, ConditionModel, Row, WriteModel};
use crate::lease_table;
use crate::position::InitialPosition;

verus! {

/// A member of the fleet that leads, has led or may lead.
pub struct Discoverer {
    /// What it remembers of shard discovery.
    pub memory: SyncMemory,
    /// Its last round of discovery, and the scan that this goes by.
    pub round: SyncModel,
    pub rows: Seq<FullRow>,
}

/// A lease table and its past.
pub struct Lineage {
    pub table: Map<Seq<char>, Row>,
    /// The shards that were completed at some time.
    pub finished: Set<Seq<char>>,
    /// All scans that were made so far. They may be out of date.
    pub scans: Set<Seq<FullRow>>,
    /// The members of the fleet.
    pub members: Map<Seq<char>, Discoverer>,
    /// The leases that the discovery of some member called for so far.
    pub called_for: Set<NewLeaseModel>,
}

/// `rows` is a scan of the table as it is.
pub open spec fn is_scan(table: Map<Seq<char>, Row>, rows: Seq<FullRow>) -> bool {
    forall|i: int|
        0 <= i < rows.len() ==> {
            let r = #[trigger] rows[i];
            &&& table.contains_key(r.key)
            &&& r.parents == table[r.key].parents
            &&& r.completed == table[r.key].completed
        }
}

/// Something that happens to a lease table.
pub enum TableMove {
    /// Somebody scans it.
    Scan(Seq<FullRow>),
    /// Somebody claims, renews, checkpoints, completes, releases or deletes a
    /// lease, or creates one without parents.
    Write(WriteModel),
    /// A member starts, or starts again: it remembers nothing.
    Join(Seq<char>),
    /// A member starts a round of discovery with a scan.
    Discover(Seq<char>, Seq<FullRow>),
    /// The call that a member's discovery asked for was answered; it may have
    /// failed.
    Answer(Seq<char>, InitialPosition, Option<Seq<ShardNode>>),
    /// A lease is published that some answer called for, sooner or later.
    Publish(NewLeaseModel),
}

/// The creation of a discovered lease.
pub open spec fn publication(l: NewLeaseModel) -> WriteModel {
    WriteModel {
        key: l.id,
        condition: ConditionModel::Absent,
        change: ChangeModel::Create(None, 0, l.checkpoint, l.parents),
    }
}

/// The table after a write, whether its condition held or not.
pub open spec fn attempted(t: Map<Seq<char>, Row>, w: WriteModel) -> Map<Seq<char>, Row> {
    match lease_table::written(t, w) {
        Some(u) => u,
        None => t,
    }
}

/// A member that has discovered nothing yet.
pub open spec fn newcomer() -> Discoverer {
    Discoverer {
        memory: SyncMemory { seeded: false, synced: Set::empty() },
        round: SyncModel { parents: Seq::empty(), stage: SyncStage::Done },
        rows: Seq::empty(),
    }
}

/// The move takes the table from `s` to `t`.
pub open spec fn table_moves(s: Lineage, m: TableMove, t: Lineage) -> bool {
    match m {
        TableMove::Scan(rows) => {
            &&& is_scan(s.table, rows)
            &&& t == (Lineage { scans: s.scans.insert(rows), ..s })
        },
        TableMove::Write(w) => {
            &&& w.change matches ChangeModel::Create(_, _, _, parents) ==> {
                &&& w.condition is Absent
                &&& parents.len() == 0
            }
            &&& t == (Lineage {
                table: attempted(s.table, w),
                finished: if w.change is Complete && lease_table::written(s.table, w) is Some {
                    s.finished.insert(w.key)
                } else {
                    s.finished
                },
                ..s
            })
        },
        TableMove::Join(who) => t == (Lineage {
            members: s.members.insert(who, newcomer()),
            ..s
        }),
        TableMove::Discover(who, rows) => {
            &&& s.scans.contains(rows)
            &&& s.members.contains_key(who)
            &&& t == (Lineage {
                members: s.members.insert(
                    who,
                    Discoverer {
                        round: sync::sync_start(rows, s.members[who].memory),
                        rows,
                        ..s.members[who]
                    },
                ),
                ..s
            })
        },
        TableMove::Answer(who, initial, answer) => {
            let d = s.members[who];
            let step = sync::sync_step(d.round, d.memory, d.rows, initial, answer);
            &&& s.members.contains_key(who)
            &&& t == (Lineage {
                members: s.members.insert(
                    who,
                    Discoverer { memory: step.memory, round: step.round, ..d },
                ),
                called_for: s.called_for.union(step.create.to_set()),
                ..s
            })
        },
        TableMove::Publish(l) => {
            &&& s.called_for.contains(l)
            &&& t == (Lineage { table: attempted(s.table, publication(l)), ..s })
        },
    }
}

/// All of these shards were completed at some time.
pub open spec fn are_finished(s: Lineage, shards: Seq<Seq<char>>) -> bool {
    forall|j: int| 0 <= j < shards.len() ==> s.finished.contains(#[trigger] shards[j])
}

/// What a member goes by is true: the shards whose children it asked for, or is
/// about to ask for, were completed.
pub open spec fn is_well_informed(s: Lineage, d: Discoverer) -> bool {
    &&& d.memory.synced.subset_of(s.finished)
    &&& are_finished(s, d.round.parents)
    &&& d.round.stage != SyncStage::Done ==> s.scans.contains(d.rows)
    &&& d.round.stage == SyncStage::Asking || d.round.stage == SyncStage::FallingBack
        ==> d.round.parents.len() > 0
}

/// Every lease of the table, every one that a scan has shown, and every one that
/// was called for belongs to a shard whose parents were completed; and what is
/// shown as complete, or remembered as such, was completed.
pub open spec fn is_grounded(s: Lineage) -> bool {
    &&& forall|k: Seq<char>| #[trigger] s.table.contains_key(k) ==> {
        &&& are_finished(s, s.table[k].parents)
        &&& s.table[k].completed ==> s.finished.contains(k)
    }
    &&& forall|rows: Seq<FullRow>, i: int|
        s.scans.contains(rows) && 0 <= i < rows.len() ==> {
            let r = #[trigger] rows[i];
            &&& are_finished(s, r.parents)
            &&& r.completed ==> s.finished.contains(r.key)
        }
    &&& forall|who: Seq<char>| #[trigger]
        s.members.contains_key(who) ==> is_well_informed(s, s.members[who])
    &&& forall|l: NewLeaseModel| #[trigger] s.called_for.contains(l) ==> are_finished(s, l.parents)
}

/// A table that was just created.
pub open spec fn is_empty(s: Lineage) -> bool {
    &&& s.table == Map::<Seq<char>, Row>::empty()
    &&& s.scans == Set::<Seq<FullRow>>::empty()
    &&& s.members == Map::<Seq<char>, Discoverer>::empty()
    &&& s.called_for == Set::<NewLeaseModel>::empty()
}

proof fn lemma_completed_is_finished(s: Lineage, rows: Seq<FullRow>, key: Seq<char>)
    requires
        is_grounded(s),
        s.scans.contains(rows),
        sync::is_completed(rows, key),
    ensures
        s.finished.contains(key),
{
    let i = choose|i: int|
        0 <= i < rows.len() && (#[trigger] rows[i]).key == key && rows[i].completed;
    assert(rows[i].completed);
}

/// A parent that is known to be complete was completed.
proof fn lemma_settled_is_finished(
    s: Lineage,
    rows: Seq<FullRow>,
    memory: SyncMemory,
    key: Seq<char>,
)
    requires
        is_grounded(s),
        s.scans.contains(rows),
        memory.synced.subset_of(s.finished),
        sync::is_settled(rows, memory, key),
    ensures
        s.finished.contains(key),
{
    if sync::is_completed(rows, key) {
        lemma_completed_is_finished(s, rows, key);
    } else if sync::has_published_child(rows, key) {
        let i = choose|i: int| 0 <= i < rows.len() && (#[trigger] rows[i]).parents.contains(key);
        let r = rows[i];
        assert(are_finished(s, r.parents));
        assert(r.parents[r.parents.index_of(key)] == key);
    }
}

/// What an answer calls for has finished parents.
proof fn lemma_called_for_is_grounded(
    s: Lineage,
    d: Discoverer,
    initial: InitialPosition,
    answer: Option<Seq<ShardNode>>,
    i: int,
)
    requires
        is_grounded(s),
        is_well_informed(s, d),
        0 <= i < sync::sync_step(d.round, d.memory, d.rows, initial, answer).create.len(),
    ensures
        are_finished(
            s,
            sync::sync_step(d.round, d.memory, d.rows, initial, answer).create[i].parents,
        ),
{
    let l = sync::sync_step(d.round, d.memory, d.rows, initial, answer).create[i];
    let graph = answer->0;
    sync::law_creates_only_missing_leases(d.rows, d.memory, graph, initial, i);
    assert forall|j: int| 0 <= j < l.parents.len() implies s.finished.contains(
        #[trigger] l.parents[j],
    ) by {
        assert(sync::is_settled(d.rows, d.memory, l.parents[j]));
        lemma_settled_is_finished(s, d.rows, d.memory, l.parents[j]);
    }
}

/// A round asks about completed shards.
proof fn lemma_round_starts_well_informed(s: Lineage, d: Discoverer, rows: Seq<FullRow>)
    requires
        is_grounded(s),
        is_well_informed(s, d),
        s.scans.contains(rows),
    ensures
        is_well_informed(
            s,
            Discoverer { round: sync::sync_start(rows, d.memory), rows, ..d },
        ),
{
    let parents = sync::sync_start(rows, d.memory).parents;
    assert forall|j: int| 0 <= j < parents.len() implies s.finished.contains(
        #[trigger] parents[j],
    ) by {
        assert(parents.contains(parents[j]));
        sync::law_asks_for_new_children_once(rows, d.memory, parents[j]);
        lemma_completed_is_finished(s, rows, parents[j]);
    }
}

/// A member stays well informed as it is answered.
proof fn lemma_answer_keeps_well_informed(
    s: Lineage,
    d: Discoverer,
    initial: InitialPosition,
    answer: Option<Seq<ShardNode>>,
)
    requires
        is_well_informed(s, d),
    ensures
        ({
            let step = sync::sync_step(d.round, d.memory, d.rows, initial, answer);
            is_well_informed(s, Discoverer { memory: step.memory, round: step.round, ..d })
        }),
{
    let parents = d.round.parents;
    if parents.len() > 0 {
        assert(s.finished.contains(parents[0]));
        assert forall|j: int| 0 <= j < parents.drop_first().len() implies s.finished.contains(
            #[trigger] parents.drop_first()[j],
        ) by {
            assert(parents.drop_first()[j] == parents[j + 1]);
        }
    }
}

/// What was completed stays completed.
proof fn lemma_past_stays(s: Lineage, t: Lineage)
    requires
        s.finished.subset_of(t.finished),
        s.scans.subset_of(t.scans),
    ensures
        forall|shards: Seq<Seq<char>>| are_finished(s, shards) ==> #[trigger] are_finished(t, shards),
        forall|d: Discoverer| is_well_informed(s, d) ==> #[trigger] is_well_informed(t, d),
{
    assert forall|shards: Seq<Seq<char>>| are_finished(s, shards) implies #[trigger] are_finished(
        t,
        shards,
    ) by {
        assert forall|j: int| 0 <= j < shards.len() implies t.finished.contains(
            #[trigger] shards[j],
        ) by {
            assert(s.finished.contains(shards[j]));
        }
    }
}

proof fn lemma_move_keeps_grounded(s: Lineage, m: TableMove, t: Lineage)
    requires
        is_grounded(s),
        table_moves(s, m, t),
    ensures
        is_grounded(t),
        s.finished.subset_of(t.finished),
{
    lemma_past_stays(s, t);
    assert forall|k: Seq<char>| #[trigger] t.table.contains_key(k) implies {
        &&& are_finished(t, t.table[k].parents)
        &&& t.table[k].completed ==> t.finished.contains(k)
    } by {
        if s.table.contains_key(k) {
            assert(are_finished(t, s.table[k].parents));
        }
        if let TableMove::Publish(l) = m {
            assert(are_finished(t, l.parents));
        }
    }
    assert forall|rows: Seq<FullRow>, i: int|
        t.scans.contains(rows) && 0 <= i < rows.len() implies {
        let r = #[trigger] rows[i];
        &&& are_finished(t, r.parents)
        &&& r.completed ==> t.finished.contains(r.key)
    } by {
        let r = rows[i];
        if s.scans.contains(rows) {
            assert(are_finished(t, r.parents));
        } else {
            assert(s.table.contains_key(r.key));
            assert(are_finished(t, s.table[r.key].parents));
        }
    }
    assert forall|who: Seq<char>| #[trigger] t.members.contains_key(who) implies is_well_informed(
        t,
        t.members[who],
    ) by {
        match m {
            TableMove::Discover(x, rows) if x == who => {
                lemma_round_starts_well_informed(s, s.members[who], rows);
            },
            TableMove::Answer(x, initial, answer) if x == who => {
                lemma_answer_keeps_well_informed(s, s.members[who], initial, answer);
            },
            TableMove::Join(x) if x == who => {},
            _ => {
                assert(s.members.contains_key(who));
            },
        }
    }
    assert forall|l: NewLeaseModel| #[trigger] t.called_for.contains(l) implies are_finished(
        t,
        l.parents,
    ) by {
        if s.called_for.contains(l) {
            assert(are_finished(t, l.parents));
        } else if let TableMove::Answer(who, initial, answer) = m {
            let d = s.members[who];
            let create = sync::sync_step(d.round, d.memory, d.rows, initial, answer).create;
            let i = create.index_of(l);
            assert(create.contains(l));
            lemma_called_for_is_grounded(s, d, initial, answer, i);
            assert(are_finished(t, create[i].parents));
        }
    }
}

/// The moves take the table through these states.
pub open spec fn table_runs(states: Seq<Lineage>, made: Seq<TableMove>) -> bool {
    &&& states.len() == made.len() + 1
    &&& forall|i: int|
        0 <= i < made.len() ==> table_moves(states[i], #[trigger] made[i], states[i + 1])
}

/// At any time in the life of a table, the parents of every shard that has a
/// lease were completed before.
pub proof fn law_leases_follow_their_parents(states: Seq<Lineage>, made: Seq<TableMove>, i: int)
    requires
        table_runs(states, made),
        is_empty(states[0]),
        0 <= i < states.len(),
    ensures
        is_grounded(states[i]),
    decreases i,
{
    if i > 0 {
        law_leases_follow_their_parents(states, made, i - 1);
        lemma_move_keeps_grounded(states[i - 1], made[i - 1], states[i]);
    }
}

/// A shard is read only after each of its parents was completed: whatever scan
/// a member acts on, and however old it is.
pub proof fn law_parents_finish_before_children_are_read(
    states: Seq<Lineage>,
    made: Seq<TableMove>,
    i: int,
    rows: Seq<FullRow>,
    me: Seq<char>,
    j: int,
)
    requires
        table_runs(states, made),
        is_empty(states[0]),
        0 <= i < states.len(),
        states[i].scans.contains(rows),
        0 <= j < cycle::cycle_work(rows, me).len(),
    ensures
        exists|n: ShardNode| #[trigger]
            cycle::graph_of(rows).contains(n) && cycle::held(rows, me).contains_key(n.id)
                && cycle::cycle_work(rows, me)[j] == cycle::held(rows, me)[n.id] && are_finished(
                states[i],
                n.parents,
            ),
{
    law_leases_follow_their_parents(states, made, i);
    cycle::law_reads_only_ready_shards_it_holds(rows, me, j);
    let g = cycle::graph_of(rows);
    let n = choose|n: ShardNode| #[trigger]
        g.contains(n) && cycle::held(rows, me).contains_key(n.id) && cycle::cycle_work(rows, me)[j]
            == cycle::held(rows, me)[n.id];
    let keep = |r: FullRow| crate::leader::names_shard(r.key);
    let kept = rows.filter(keep);
    let k = g.index_of(n);
    assert(g[k] == n);
    let r = kept[k];
    assert(kept.contains(r));
    rows.lemma_filter_contains_rev(keep, r);
    let p = rows.index_of(r);
    assert(rows[p] == r);
    assert(are_finished(states[i], rows[p].parents));
    assert(n.parents == r.parents);
}

} // verus!
