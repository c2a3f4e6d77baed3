//! How many shards a member holds, over any number of cycles: never more than
//! its limit, whatever the other members do meanwhile.

use vstd::prelude::*;

use crate::coordinator::RawLease;
use crate::fleet::cycle;
use crate::fleet::lineage;
use crate::fleet::run::World;
use crate::fleet::run;
use crate::leader;
use crate::lease_table::{ChangeModel, Row, WriteModel};
use crate::lease_table;

verus! {

/// A lease table, and the leases that a member is about to claim.
pub struct Tenure {
    pub table: Map<Seq<char>, Row>,
    pub claiming: Seq<Seq<char>>,
}

/// The unfinished shards that `me` holds.
pub open spec fn mine(table: Map<Seq<char>, Row>, me: Seq<char>) -> Set<Seq<char>> {
    table.dom().filter(
        |k: Seq<char>|
            leader::names_shard(k) && table[k].owner == Some(me) && !table[k].completed,
    )
}

/// `rows` is a scan of the table as it is: it has every row, with its owner and
/// whether it is complete.
pub open spec fn shows(table: Map<Seq<char>, Row>, rows: Seq<RawLease>) -> bool {
    let full = cycle::full_rows(rows);
    &&& forall|i: int|
        0 <= i < full.len() ==> {
            let r = #[trigger] full[i];
            &&& table.contains_key(r.key)
            &&& r.owner == table[r.key].owner
            &&& r.completed == table[r.key].completed
        }
    &&& forall|k: Seq<char>| #[trigger]
        table.contains_key(k) ==> exists|i: int| 0 <= i < full.len() && (#[trigger] full[i]).key == k
}

/// The change makes `me` the owner of a lease.
pub open spec fn gives(c: ChangeModel, me: Seq<char>) -> bool {
    match c {
        ChangeModel::Create(owner, _, _, _) => owner == Some(me),
        ChangeModel::Take(o) => o == me,
        ChangeModel::Beat(o) => o == me,
        _ => false,
    }
}

/// Something that happens to the table.
pub enum TenureMove {
    /// The member scans the table in a cycle and decides what to claim: what it
    /// remembers, the scan, the time, and a fair set of leases.
    Decide(World, Seq<RawLease>, u64, Seq<Seq<char>>),
    /// The member tries to claim the next of these leases.
    Claim(WriteModel),
    /// Anything else is written: by another member, or by this one to a lease
    /// that it holds, to a lease that it gives up, or to its heartbeat.
    Write(WriteModel),
}

/// The move takes the table from `s` to `t`, where `me` may hold `limit` shards.
pub open spec fn tenure_moves(
    s: Tenure,
    m: TenureMove,
    t: Tenure,
    me: Seq<char>,
    limit: nat,
) -> bool {
    match m {
        TenureMove::Decide(w, rows, now_ms, take) => {
            &&& w.owner == me
            &&& w.max_leases == limit
            &&& shows(s.table, rows)
            &&& run::fair(w, rows, now_ms, take)
            &&& t == (Tenure { claiming: run::admitted(take, run::room(w, rows)), ..s })
        },
        TenureMove::Claim(w) => {
            &&& s.claiming.len() > 0
            &&& w.key == s.claiming[0]
            &&& t == (Tenure {
                table: lineage::attempted(s.table, w),
                claiming: s.claiming.drop_first(),
            })
        },
        TenureMove::Write(w) => {
            &&& gives(w.change, me) ==> !leader::names_shard(w.key)
            &&& t == (Tenure { table: lineage::attempted(s.table, w), ..s })
        },
    }
}

/// The member holds, and is about to hold, no more than its limit.
pub open spec fn is_within(s: Tenure, me: Seq<char>, limit: nat) -> bool {
    &&& s.table.dom().finite()
    &&& mine(s.table, me).len() + s.claiming.len() <= limit
}

/// A scan shows exactly what the member holds.
proof fn lemma_scan_shows_mine(table: Map<Seq<char>, Row>, rows: Seq<RawLease>, me: Seq<char>)
    requires
        shows(table, rows),
    ensures
        cycle::held(cycle::full_rows(rows), me).dom() == mine(table, me),
{
    let full = cycle::full_rows(rows);
    assert forall|k: Seq<char>| cycle::held(full, me).dom().contains(k) <==> #[trigger] mine(
        table,
        me,
    ).contains(k) by {
        cycle::lemma_held_rows(full, me, k);
        if mine(table, me).contains(k) {
            let i = choose|i: int| 0 <= i < full.len() && (#[trigger] full[i]).key == k;
            assert(cycle::holds(full[i], me));
        }
    }
    assert(cycle::held(full, me).dom() =~= mine(table, me));
}

proof fn lemma_move_stays_within(
    s: Tenure,
    m: TenureMove,
    t: Tenure,
    me: Seq<char>,
    limit: nat,
)
    requires
        is_within(s, me, limit),
        tenure_moves(s, m, t, me, limit),
    ensures
        is_within(t, me, limit),
{
    match m {
        TenureMove::Decide(w, rows, now_ms, take) => {
            lemma_scan_shows_mine(s.table, rows, me);
        },
        TenureMove::Claim(w) => {
            assert(t.table.dom().subset_of(s.table.dom().insert(w.key)));
            vstd::set_lib::lemma_len_subset(t.table.dom(), s.table.dom().insert(w.key));
            assert(mine(t.table, me).subset_of(mine(s.table, me).insert(w.key)));
            vstd::set_lib::lemma_len_subset(
                mine(t.table, me),
                mine(s.table, me).insert(w.key),
            );
        },
        TenureMove::Write(w) => {
            assert(t.table.dom().subset_of(s.table.dom().insert(w.key)));
            vstd::set_lib::lemma_len_subset(t.table.dom(), s.table.dom().insert(w.key));
            assert(mine(t.table, me).subset_of(mine(s.table, me)));
            vstd::set_lib::lemma_len_subset(mine(t.table, me), mine(s.table, me));
        },
    }
}

/// The moves take the table through these states.
pub open spec fn tenure_runs(
    states: Seq<Tenure>,
    made: Seq<TenureMove>,
    me: Seq<char>,
    limit: nat,
) -> bool {
    &&& states.len() == made.len() + 1
    &&& forall|i: int|
        0 <= i < made.len() ==> tenure_moves(
            states[i],
            #[trigger] made[i],
            states[i + 1],
            me,
            limit,
        )
}

/// A member that holds no more than its limit at first never does, over any
/// number of cycles and whatever the others do.
pub proof fn law_a_member_holds_no_more_than_its_limit(
    states: Seq<Tenure>,
    made: Seq<TenureMove>,
    me: Seq<char>,
    limit: nat,
    i: int,
)
    requires
        tenure_runs(states, made, me, limit),
        states[0].table.dom().finite(),
        states[0].claiming.len() == 0,
        mine(states[0].table, me).len() <= limit,
        0 <= i < states.len(),
    ensures
        mine(states[i].table, me).len() <= limit,
        is_within(states[i], me, limit),
    decreases i,
{
    if i > 0 {
        law_a_member_holds_no_more_than_its_limit(states, made, me, limit, i - 1);
        lemma_move_stays_within(states[i - 1], made[i - 1], states[i], me, limit);
    }
}

} // verus!
