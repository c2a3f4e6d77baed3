//! Election of the single worker that describes the stream.
//!
//! A reserved lease elects the leader. A vacant lease is created if absent; an
//! expired one is stolen on condition of the counter that was seen; that of a
//! live leader is left alone. The leader is alive as long as the counter of the
//! lease advances.

use vstd::prelude::*;

use crate::collections::{clone_optional, list_contains};
use crate::collections;
use crate::coordinator::{heartbeat_key, LeaseCoordinator, RawLease, RawRow, Seen};
use crate::coordinator;
use crate::leader::LEADER_LEASE_KEY;
use crate::leader;
use crate::taker;
use crate::text;

verus! {

/// What to attempt on the leader lease.
#[derive(Clone, Copy, Debug, PartialEq, Eq, Structural)]
pub enum LeaderBid {
    /// This worker leads: renew the lease from the counter `base`.
    Renew { base: u64 },
    /// There is no leader lease: create it if it is still absent.
    Create,
    /// The leader is gone: take the lease if its counter is still `seen`.
    Steal { seen: u64 },
    /// Another worker leads.
    Follow,
}

/// The first row of the leader lease in a scan.
pub open spec fn leader_row(rows: Seq<RawRow>) -> Option<RawRow>
    decreases rows.len(),
{
    if rows.len() == 0 {
        None
    } else if rows[0].key == leader::leader_key() {
        Some(rows[0])
    } else {
        leader_row(rows.drop_first())
    }
}

/// What the coordinator is shown of the leader lease: the lease itself, and its
/// counter as the heartbeat of its owner.
pub open spec fn leader_view(row: Option<RawRow>) -> Seq<RawRow> {
    match row {
        None => Seq::empty(),
        Some(r) => match r.owner {
            None => seq![r],
            Some(o) => seq![
                r,
                RawRow {
                    key: coordinator::heartbeat_prefix() + o,
                    owner: Some(o),
                    counter: r.counter,
                    completed: false,
                },
            ],
        },
    }
}

/// The bid that a scan calls for, given the freshness of the leader after it.
pub open spec fn bid_for(
    row: Option<RawRow>,
    seen: Map<Seq<char>, Seen>,
    me: Seq<char>,
    duration: u64,
    now: u64,
) -> LeaderBid {
    match row {
        None => LeaderBid::Create,
        Some(r) => if r.owner == Some(me) {
            LeaderBid::Renew { base: r.counter }
        } else if !r.completed && (r.owner is None || coordinator::owner_expired(
            seen,
            me,
            duration,
            r.owner,
            now,
        )) {
            LeaderBid::Steal { seen: r.counter }
        } else {
            LeaderBid::Follow
        },
    }
}

/// This worker's bid for leadership, carried across cycles.
pub struct Leadership {
    owner: String,
    coord: LeaseCoordinator,
    /// The counter held while leading.
    counter: u64,
}

impl Leadership {
    /// The worker that bids.
    pub closed spec fn owner(&self) -> Seq<char> {
        self.owner@
    }

    /// How long the counter of the leader lease may stand still.
    pub closed spec fn duration(&self) -> u64 {
        self.coord.duration()
    }

    /// The freshness of the leader.
    pub closed spec fn seen(&self) -> Map<Seq<char>, Seen> {
        self.coord.seen()
    }

    /// The counter held while leading.
    pub closed spec fn held_counter(&self) -> u64 {
        self.counter
    }

    /// The coordinator watches one lease on behalf of the owner.
    pub closed spec fn wf(&self) -> bool {
        self.coord.me() == self.owner@ && self.coord.max_take() == 1
    }

    /// A worker that has not bid yet.
    pub fn new(owner: &str, lease_duration_ms: u64) -> (l: Leadership)
        ensures
            l.wf(),
            l.owner() == owner@,
            l.duration() == lease_duration_ms,
            l.seen() == Map::<Seq<char>, Seen>::empty(),
            l.held_counter() == 0,
    {
        Leadership {
            coord: LeaseCoordinator::new(owner, 1, lease_duration_ms),
            owner: owner.to_owned(),
            counter: 0,
        }
    }

    /// What to attempt in this cycle, given a fresh scan of the lease table.
    pub fn decide(&mut self, rows: &[RawLease], now_ms: u64) -> (bid: LeaderBid)
        requires
            old(self).wf(),
        ensures
            final(self).wf(),
            final(self).owner() == old(self).owner(),
            final(self).duration() == old(self).duration(),
            final(self).held_counter() == old(self).held_counter(),
            final(self).seen() == coordinator::observed(
                old(self).seen(),
                leader_view(leader_row(coordinator::raw_rows(rows@))),
                old(self).owner(),
                now_ms,
            ),
            bid == bid_for(
                leader_row(coordinator::raw_rows(rows@)),
                final(self).seen(),
                old(self).owner(),
                old(self).duration(),
                now_ms,
            ),
    {
        let found = find_leader(rows);
        let view = shown(&found);
        let take = self.coord.tick(view.as_slice(), now_ms);
        let takeable = list_contains(&take, LEADER_LEASE_KEY);
        match &found {
            None => LeaderBid::Create,
            Some(r) => {
                let mine = match &r.owner {
                    Some(o) => text::same(o.as_str(), self.owner.as_str()),
                    None => false,
                };
                proof {
                    lemma_takeable(
                        self.coord.seen(),
                        r@,
                        self.owner@,
                        self.coord.duration(),
                        now_ms,
                        collections::texts(take@),
                    );
                }
                if mine {
                    LeaderBid::Renew { base: r.lease_counter }
                } else if takeable {
                    LeaderBid::Steal { seen: r.lease_counter }
                } else {
                    LeaderBid::Follow
                }
            },
        }
    }

    /// Note what became of the attempt: the new counter of the lease if it
    /// succeeded. Tells whether this worker leads now.
    pub fn settle(&mut self, granted: Option<u64>) -> (leads: bool)
        requires
            old(self).wf(),
        ensures
            final(self).wf(),
            final(self).owner() == old(self).owner(),
            final(self).duration() == old(self).duration(),
            final(self).seen() == old(self).seen(),
            leads == (granted is Some),
            final(self).held_counter() == (match granted {
                Some(c) => c,
                None => old(self).held_counter(),
            }),
    {
        match granted {
            Some(c) => {
                self.counter = c;
                true
            },
            None => false,
        }
    }
}

/// A copy of what leadership reads of a row.
fn bare_row(r: &RawLease) -> (c: RawLease)
    ensures
        c@ == r@,
{
    RawLease {
        lease_key: r.lease_key.clone(),
        owner: clone_optional(&r.owner),
        lease_counter: r.lease_counter,
        completed: r.completed,
        checkpoint: None,
        parents: Vec::new(),
    }
}

fn find_leader(rows: &[RawLease]) -> (r: Option<RawLease>)
    ensures
        match r {
            Some(x) => leader_row(coordinator::raw_rows(rows@)) == Some(x@) && x@.key
                == leader::leader_key(),
            None => leader_row(coordinator::raw_rows(rows@)) is None,
        },
{
    let ghost t = coordinator::raw_rows(rows@);
    let mut i: usize = 0;
    assert(t.skip(0) =~= t);
    while i < rows.len()
        invariant
            i <= rows.len(),
            t == coordinator::raw_rows(rows@),
            leader_row(t) == leader_row(t.skip(i as int)),
        decreases rows.len() - i,
    {
        assert(t.skip(i as int)[0] == rows@[i as int]@);
        assert(t.skip(i as int).drop_first() =~= t.skip(i + 1));
        if text::same(rows[i].lease_key.as_str(), LEADER_LEASE_KEY) {
            return Some(bare_row(&rows[i]));
        }
        i = i + 1;
    }
    None
}

/// The rows of `leader_view`.
fn shown(found: &Option<RawLease>) -> (v: Vec<RawLease>)
    ensures
        coordinator::raw_rows(v@) == leader_view(
            match found {
                Some(r) => Some(r@),
                None => None,
            },
        ),
{
    let mut v: Vec<RawLease> = Vec::new();
    if let Some(r) = found {
        v.push(bare_row(r));
        if let Some(o) = &r.owner {
            v.push(
                RawLease {
                    lease_key: heartbeat_key(o.as_str()),
                    owner: Some(o.clone()),
                    lease_counter: r.lease_counter,
                    completed: false,
                    checkpoint: None,
                    parents: Vec::new(),
                },
            );
        }
    }
    assert(coordinator::raw_rows(v@) =~= leader_view(
        match found {
            Some(r) => Some(r@),
            None => None,
        },
    ));
    v
}

proof fn lemma_leader_key_is_no_heartbeat()
    ensures
        !coordinator::names_heartbeat(leader::leader_key()),
{
    reveal_strlit("__shard_sync_leader__");
    reveal_strlit("__hb__:");
    let p = coordinator::heartbeat_prefix();
    let k = leader::leader_key();
    if p.is_prefix_of(k) {
        assert(k.subrange(0, p.len() as int)[2] == p[2]);
    }
}

/// The one-lease balancing problem: the leader lease is to be taken exactly if
/// it is available.
proof fn lemma_takeable(
    seen: Map<Seq<char>, Seen>,
    row: RawRow,
    me: Seq<char>,
    duration: u64,
    now: u64,
    take: Seq<Seq<char>>,
)
    requires
        row.key == leader::leader_key(),
        taker::balances(
            coordinator::snapshot(seen, me, duration, leader_view(Some(row)), now),
            me,
            1,
            take,
        ),
    ensures
        take.contains(leader::leader_key()) <==> taker::is_available(
            coordinator::snapshot_row(seen, me, duration, row, now),
            me,
        ),
{
    let rows = leader_view(Some(row));
    let keep = |r: RawRow| !coordinator::names_heartbeat(r.key);
    let s = coordinator::snapshot_row(seen, me, duration, row, now);
    lemma_leader_key_is_no_heartbeat();
    assert(rows.filter(keep) =~= seq![row]) by {
        reveal_with_fuel(Seq::filter, 3);
        if let Some(o) = row.owner {
            coordinator::law_heartbeat_keys(o, o);
            assert(rows.drop_last() =~= seq![row]);
            assert(seq![row].drop_last() =~= Seq::empty());
        } else {
            assert(rows.drop_last() =~= Seq::empty());
        }
    }
    let t = coordinator::snapshot(seen, me, duration, rows, now);
    assert(t =~= seq![s]);
    lemma_single(s, me, take);
    if taker::is_available(s, me) {
        assert(take[0] == leader::leader_key());
    }
}

proof fn lemma_single(s: taker::LeaseRow, me: Seq<char>, take: Seq<Seq<char>>)
    requires
        taker::balances(seq![s], me, 1, take),
    ensures
        taker::is_available(s, me) ==> take == seq![s.key],
        !taker::is_available(s, me) ==> take.len() == 0,
{
    let t = seq![s];
    reveal_with_fuel(Seq::filter, 2);
    reveal_with_fuel(taker::live_workers, 2);
    assert(t.drop_last() =~= Seq::empty());
    assert(taker::active_rows(t) =~= if s.completed {
        Seq::empty()
    } else {
        seq![s]
    });
    assert(taker::available_rows(t, me) =~= if taker::is_available(s, me) {
        seq![s]
    } else {
        Seq::empty()
    });
    assert forall|w: Seq<char>| #[trigger] taker::load(t, w) == (if taker::live_owner(s) == Some(w) {
        1int
    } else {
        0int
    }) by {}
    if !s.completed {
        let workers = taker::live_workers(t, me);
        match taker::live_owner(s) {
            Some(w) => {
                assert(workers =~= set![me].insert(w));
                assert(set![me].len() == 1);
            },
            None => {
                assert(workers =~= set![me]);
                assert(set![me].len() == 1);
            },
        }
        assert(workers.len() == 1 || workers.len() == 2);
        assert(taker::fair_share(t, me) == 1);
        let k = taker::keys(taker::available_rows(t, me));
        collections::lemma_sorted(k);
        if taker::is_available(s, me) {
            assert(taker::load(t, me) == 0);
            assert(k =~= seq![s.key]);
            reveal_with_fuel(collections::sorted, 2);
            reveal_with_fuel(collections::insert_sorted, 2);
            assert(k.drop_last() =~= Seq::empty());
            assert(collections::sorted(k) =~= seq![s.key]);
            assert(taker::claimed_count(t, me, 1) == 1);
            assert(collections::sorted(k).take(1) =~= seq![s.key]);
        } else {
            assert forall|who: Seq<char>| !taker::is_victim(t, me, who) by {
                assert(taker::load(t, who) <= 1);
            }
            if taker::load(t, me) < 1 {
                assert(collections::sorted(k).take(0) =~= Seq::empty());
            }
        }
    }
}

/// Without a leader lease, this worker tries to create it.
pub proof fn law_vacant_leadership_is_created(
    rows: Seq<RawRow>,
    seen: Map<Seq<char>, Seen>,
    me: Seq<char>,
    duration: u64,
    now: u64,
)
    requires
        forall|i: int| 0 <= i < rows.len() ==> (#[trigger] rows[i]).key != leader::leader_key(),
    ensures
        bid_for(leader_row(rows), seen, me, duration, now) == LeaderBid::Create,
    decreases rows.len(),
{
    if rows.len() > 0 {
        assert(rows[0].key != leader::leader_key());
        assert forall|i: int| 0 <= i < rows.drop_first().len() implies (
        #[trigger] rows.drop_first()[i]).key != leader::leader_key() by {
            assert(rows.drop_first()[i] == rows[i + 1]);
        }
        law_vacant_leadership_is_created(rows.drop_first(), seen, me, duration, now);
    }
}

/// A leader whose counter advanced since the last scan, or that is seen for the
/// first time, is left alone.
pub proof fn law_live_leader_is_left_alone(
    row: RawRow,
    other: Seq<char>,
    seen: Map<Seq<char>, Seen>,
    me: Seq<char>,
    duration: u64,
    now: u64,
)
    requires
        row.key == leader::leader_key(),
        row.owner == Some(other),
        other != me,
        !(seen.contains_key(other) && seen[other].counter == row.counter),
    ensures
        bid_for(
            Some(row),
            coordinator::observed(seen, leader_view(Some(row)), me, now),
            me,
            duration,
            now,
        ) == LeaderBid::Follow,
{
    let rows = leader_view(Some(row));
    lemma_leader_key_is_no_heartbeat();
    coordinator::law_heartbeat_keys(other, other);
    assert(coordinator::is_heartbeat_of(rows[1], other));
    coordinator::law_live_worker_keeps_its_leases(
        seen,
        rows,
        me,
        duration,
        now,
        other,
        row.counter,
    );
}

/// A leader whose counter stood still for longer than the lease duration is
/// replaced, on condition that the counter is still the one that was seen: one
/// that revived and renewed the lease defeats the attempt.
pub proof fn law_stalled_leader_is_replaced(
    row: RawRow,
    other: Seq<char>,
    seen: Map<Seq<char>, Seen>,
    me: Seq<char>,
    duration: u64,
    now: u64,
)
    requires
        row.key == leader::leader_key(),
        row.owner == Some(other),
        other != me,
        !row.completed,
        seen.contains_key(other),
        seen[other].counter == row.counter,
        now - seen[other].last_change_ms > duration,
    ensures
        bid_for(
            Some(row),
            coordinator::observed(seen, leader_view(Some(row)), me, now),
            me,
            duration,
            now,
        ) == (LeaderBid::Steal { seen: row.counter }),
{
    let rows = leader_view(Some(row));
    lemma_leader_key_is_no_heartbeat();
    coordinator::law_heartbeat_keys(other, other);
    assert(coordinator::is_heartbeat_of(rows[1], other));
    assert(rows[0] == row);
    coordinator::law_dead_worker_frees_all_its_leases(
        seen,
        rows,
        me,
        duration,
        now,
        other,
        row.counter,
        row,
    );
}

proof fn lemma_first_leader_row(rows: Seq<RawLease>, i: int)
    requires
        0 <= i < rows.len(),
        rows[i].lease_key@ == leader::leader_key(),
        forall|k: int| 0 <= k < i ==> (#[trigger] rows[k]).lease_key@ != leader::leader_key(),
    ensures
        leader_row(coordinator::raw_rows(rows)) == Some(rows[i]@),
    decreases i,
{
    let t = coordinator::raw_rows(rows);
    if i > 0 {
        let rest = rows.drop_first();
        assert(rows[0].lease_key@ != leader::leader_key());
        assert forall|k: int| 0 <= k < i - 1 implies (#[trigger] rest[k]).lease_key@
            != leader::leader_key() by {
            assert(rows[k + 1].lease_key@ != leader::leader_key());
        }
        assert(rest[i - 1] == rows[i]);
        lemma_first_leader_row(rest, i - 1);
        assert(coordinator::raw_rows(rest) =~= t.drop_first());
    }
}

/// What a scan calls for. Without the leader lease, it is created; a leader
/// renews it, with its counter; one that nobody holds is taken, on condition of
/// its counter; and so is that of another worker exactly if its counter was seen
/// before and has stood still for longer than the lease duration.
pub proof fn law_a_scan_calls_for_a_bid(
    rows: Seq<RawLease>,
    seen: Map<Seq<char>, Seen>,
    me: Seq<char>,
    duration: u64,
    now: u64,
    i: int,
)
    requires
        0 <= i <= rows.len(),
        forall|k: int|
            0 <= k < i ==> (#[trigger] rows[k]).lease_key@ != "__shard_sync_leader__"@,
        i < rows.len() ==> rows[i].lease_key@ == "__shard_sync_leader__"@,
    ensures
        ({
            let row = leader_row(coordinator::raw_rows(rows));
            let fresh = coordinator::observed(seen, leader_view(row), me, now);
            let bid = bid_for(row, fresh, me, duration, now);
            if i == rows.len() {
                bid == LeaderBid::Create
            } else if rows[i].owner is Some && rows[i].owner->0@ == me {
                bid == (LeaderBid::Renew { base: rows[i].lease_counter })
            } else if rows[i].completed {
                bid == LeaderBid::Follow
            } else if rows[i].owner is None {
                bid == (LeaderBid::Steal { seen: rows[i].lease_counter })
            } else {
                let o = rows[i].owner->0@;
                &&& fresh.contains_key(o)
                &&& fresh[o].counter == rows[i].lease_counter
                &&& if seen.contains_key(o) && seen[o].counter == rows[i].lease_counter && now
                    > seen[o].last_change_ms + duration {
                    bid == (LeaderBid::Steal { seen: rows[i].lease_counter })
                } else {
                    bid == LeaderBid::Follow
                }
            }
        }),
{
    let t = coordinator::raw_rows(rows);
    if i == rows.len() {
        law_vacant_leadership_is_created(t, seen, me, duration, now);
        law_vacant_leadership_is_created(
            t,
            coordinator::observed(seen, leader_view(leader_row(t)), me, now),
            me,
            duration,
            now,
        );
    } else {
        lemma_first_leader_row(rows, i);
        let r = rows[i]@;
        if r.owner is Some && r.owner->0 != me {
            let o = r.owner->0;
            let view = leader_view(Some(r));
            lemma_leader_key_is_no_heartbeat();
            coordinator::law_heartbeat_keys(o, o);
            assert(coordinator::heartbeats_with(view, o, r.counter)) by {
                assert(coordinator::is_heartbeat_of(view[1], o));
            }
            coordinator::lemma_heartbeat(seen, view, now, o, r.counter);
            coordinator::lemma_grace(
                coordinator::after_heartbeats(seen, view, now),
                view,
                me,
                now,
                o,
            );
            coordinator::lemma_mentioned(view, o);
            assert(view[0].owner == Some(o));
        }
    }
}

} // verus!
