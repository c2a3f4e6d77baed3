//! The lease coordinator: turns raw lease rows into take decisions.
//!
//! Liveness is judged per worker. Each worker keeps one heartbeat row whose
//! counter it advances; an owner whose counter stood still for longer than the
//! lease duration is dead, and all of its leases become takeable at once. Time
//! is an input, so that a decision is a function of its arguments.

use vstd::prelude::*;

use crate::collections::{clone_optional, StringMap, StringSet};
use crate::collections;
use crate::taker::{compute_leases_to_take, LeaseSnapshot};
use crate::taker;
use crate::text;

verus! {

/// The prefix of the keys of heartbeat rows.
pub const HEARTBEAT_KEY_PREFIX: &'static str = "__hb__:";

/// The text of the heartbeat prefix.
pub open spec fn heartbeat_prefix() -> Seq<char> {
    "__hb__:"@
}

/// The heartbeat key of `worker`.
pub fn heartbeat_key(worker: &str) -> (key: String)
    ensures
        key@ == heartbeat_prefix() + worker@,
{
    let mut key = HEARTBEAT_KEY_PREFIX.to_owned();
    key.append(worker);
    key
}

/// Is `key` that of a heartbeat row?
pub open spec fn names_heartbeat(key: Seq<char>) -> bool {
    heartbeat_prefix().is_prefix_of(key)
}

/// Is `key` that of a heartbeat row (and not of a shard lease)?
pub fn is_heartbeat_key(key: &str) -> (r: bool)
    ensures
        r == names_heartbeat(key@),
{
    text::starts_with(key, HEARTBEAT_KEY_PREFIX)
}

/// A lease row as read from a scan of the table.
#[derive(Clone, Debug)]
pub struct RawLease {
    pub lease_key: String,
    pub owner: Option<String>,
    pub lease_counter: u64,
    pub completed: bool,
    /// Resume position; `None` is the beginning of the shard.
    pub checkpoint: Option<String>,
    /// The parents of the shard, published on the row so that a worker can
    /// enforce parent-before-child without describing the stream.
    pub parents: Vec<String>,
}

/// What the coordinator reads of a lease row.
pub struct RawRow {
    pub key: Seq<char>,
    pub owner: Option<Seq<char>>,
    pub counter: u64,
    pub completed: bool,
}

impl View for RawLease {
    type V = RawRow;

    open spec fn view(&self) -> RawRow {
        RawRow {
            key: self.lease_key@,
            owner: collections::optional_text(self.owner),
            counter: self.lease_counter,
            completed: self.completed,
        }
    }
}

/// The rows of a scan.
pub open spec fn raw_rows(s: Seq<RawLease>) -> Seq<RawRow> {
    s.map_values(|r: RawLease| r@)
}

/// How fresh a worker is: its heartbeat counter, and when it last changed.
#[derive(Clone, Copy, Debug)]
pub struct Seen {
    pub counter: u64,
    pub last_change_ms: u64,
}

/// The freshness of every known worker after the heartbeats of a scan at
/// `now`: a counter that changed, or that is new, counts from `now`.
pub open spec fn after_heartbeats(seen: Map<Seq<char>, Seen>, rows: Seq<RawRow>, now: u64) -> Map<
    Seq<char>,
    Seen,
>
    decreases rows.len(),
{
    if rows.len() == 0 {
        seen
    } else {
        let before = after_heartbeats(seen, rows.drop_last(), now);
        let r = rows.last();
        match r.owner {
            Some(w) if names_heartbeat(r.key) && !(before.contains_key(w) && before[w].counter
                == r.counter) => before.insert(w, Seen { counter: r.counter, last_change_ms: now }),
            _ => before,
        }
    }
}

/// The freshness after a grace period was granted to every other owner of a
/// shard lease that is not known yet.
pub open spec fn after_grace(
    seen: Map<Seq<char>, Seen>,
    rows: Seq<RawRow>,
    me: Seq<char>,
    now: u64,
) -> Map<Seq<char>, Seen>
    decreases rows.len(),
{
    if rows.len() == 0 {
        seen
    } else {
        let before = after_grace(seen, rows.drop_last(), me, now);
        let r = rows.last();
        match r.owner {
            Some(w) if !names_heartbeat(r.key) && w != me && !before.contains_key(w) =>
                before.insert(w, Seen { counter: 0, last_change_ms: now }),
            _ => before,
        }
    }
}

/// The owners that a scan mentions.
pub open spec fn mentioned(rows: Seq<RawRow>) -> Set<Seq<char>>
    decreases rows.len(),
{
    if rows.len() == 0 {
        Set::empty()
    } else {
        match rows.last().owner {
            Some(w) => mentioned(rows.drop_last()).insert(w),
            None => mentioned(rows.drop_last()),
        }
    }
}

/// The freshness that a scan at `now` leaves behind: heartbeats first, then
/// grace for the rest; workers that the scan does not mention are forgotten.
pub open spec fn observed(
    seen: Map<Seq<char>, Seen>,
    rows: Seq<RawRow>,
    me: Seq<char>,
    now: u64,
) -> Map<Seq<char>, Seen> {
    after_grace(after_heartbeats(seen, rows, now), rows, me, now).restrict(mentioned(rows))
}

/// The owner of a lease is dead at `now`: it is another worker, and its counter
/// stood still for longer than `duration`.
pub open spec fn owner_expired(
    seen: Map<Seq<char>, Seen>,
    me: Seq<char>,
    duration: u64,
    owner: Option<Seq<char>>,
    now: u64,
) -> bool {
    match owner {
        None => false,
        Some(o) => o != me && seen.contains_key(o) && now - seen[o].last_change_ms > duration,
    }
}

/// The balancing view of one shard lease.
pub open spec fn snapshot_row(
    seen: Map<Seq<char>, Seen>,
    me: Seq<char>,
    duration: u64,
    r: RawRow,
    now: u64,
) -> taker::LeaseRow {
    taker::LeaseRow {
        key: r.key,
        owner: r.owner,
        expired: owner_expired(seen, me, duration, r.owner, now),
        completed: r.completed,
    }
}

/// The rows of shard leases.
pub open spec fn shard_rows(rows: Seq<RawRow>) -> Seq<RawRow> {
    rows.filter(|r: RawRow| !names_heartbeat(r.key))
}

/// The balancing view of a scan.
pub open spec fn snapshot(
    seen: Map<Seq<char>, Seen>,
    me: Seq<char>,
    duration: u64,
    rows: Seq<RawRow>,
    now: u64,
) -> Seq<taker::LeaseRow> {
    shard_rows(rows).map_values(|r: RawRow| snapshot_row(seen, me, duration, r, now))
}

/// One worker's view of the lease table over time.
pub struct LeaseCoordinator {
    me: String,
    max_take: usize,
    lease_duration_ms: u64,
    seen: StringMap<Seen>,
}

impl LeaseCoordinator {
    /// The worker that decides.
    pub closed spec fn me(&self) -> Seq<char> {
        self.me@
    }

    /// The most leases that it takes at once.
    pub closed spec fn max_take(&self) -> usize {
        self.max_take
    }

    /// How long a counter may stand still.
    pub closed spec fn duration(&self) -> u64 {
        self.lease_duration_ms
    }

    /// The freshness of the workers it knows.
    pub closed spec fn seen(&self) -> Map<Seq<char>, Seen> {
        self.seen@
    }

    /// A coordinator that has seen nothing yet.
    pub fn new(me: &str, max_take: usize, lease_duration_ms: u64) -> (c: LeaseCoordinator)
        ensures
            c.me() == me@,
            c.max_take() == max_take,
            c.duration() == lease_duration_ms,
            c.seen() == Map::<Seq<char>, Seen>::empty(),
    {
        LeaseCoordinator { me: me.to_owned(), max_take, lease_duration_ms, seen: StringMap::new() }
    }

    /// Process one scan of the lease table at `now_ms`: update the freshness of
    /// the workers and return the keys of the shard leases to attempt to take.
    pub fn tick(&mut self, rows: &[RawLease], now_ms: u64) -> (take: Vec<String>)
        ensures
            final(self).me() == old(self).me(),
            final(self).max_take() == old(self).max_take(),
            final(self).duration() == old(self).duration(),
            final(self).seen() == observed(old(self).seen(), raw_rows(rows@), old(self).me(), now_ms),
            taker::balances(
                snapshot(
                    final(self).seen(),
                    old(self).me(),
                    old(self).duration(),
                    raw_rows(rows@),
                    now_ms,
                ),
                old(self).me(),
                old(self).max_take() as int,
                collections::texts(take@),
            ),
    {
        self.note_heartbeats(rows, now_ms);
        self.grant_grace(rows, now_ms);
        let known = owners(rows);
        self.seen.retain_in(&known);
        let snap = self.snapshot_of(rows, now_ms);
        compute_leases_to_take(snap.as_slice(), self.me.as_str(), self.max_take)
    }

    fn note_heartbeats(&mut self, rows: &[RawLease], now_ms: u64)
        ensures
            final(self).me == old(self).me,
            final(self).max_take == old(self).max_take,
            final(self).lease_duration_ms == old(self).lease_duration_ms,
            final(self).seen@ == after_heartbeats(old(self).seen@, raw_rows(rows@), now_ms),
    {
        let ghost t = raw_rows(rows@);
        let mut i: usize = 0;
        while i < rows.len()
            invariant
                i <= rows.len(),
                t == raw_rows(rows@),
                self.me == old(self).me,
                self.max_take == old(self).max_take,
                self.lease_duration_ms == old(self).lease_duration_ms,
                self.seen@ == after_heartbeats(old(self).seen@, t.take(i as int), now_ms),
            decreases rows.len() - i,
        {
            assert(t.take(i + 1).drop_last() =~= t.take(i as int));
            assert(t[i as int] == rows@[i as int]@);
            if is_heartbeat_key(rows[i].lease_key.as_str()) {
                if let Some(worker) = clone_optional(&rows[i].owner) {
                    let unchanged = match self.seen.get(worker.as_str()) {
                        Some(s) => s.counter == rows[i].lease_counter,
                        None => false,
                    };
                    if !unchanged {
                        self.seen.insert(
                            worker,
                            Seen { counter: rows[i].lease_counter, last_change_ms: now_ms },
                        );
                    }
                }
            }
            i = i + 1;
        }
        assert(t.take(i as int) =~= t);
    }

    fn grant_grace(&mut self, rows: &[RawLease], now_ms: u64)
        ensures
            final(self).me == old(self).me,
            final(self).max_take == old(self).max_take,
            final(self).lease_duration_ms == old(self).lease_duration_ms,
            final(self).seen@ == after_grace(
                old(self).seen@,
                raw_rows(rows@),
                old(self).me@,
                now_ms,
            ),
    {
        let ghost t = raw_rows(rows@);
        let mut i: usize = 0;
        while i < rows.len()
            invariant
                i <= rows.len(),
                t == raw_rows(rows@),
                self.me == old(self).me,
                self.max_take == old(self).max_take,
                self.lease_duration_ms == old(self).lease_duration_ms,
                self.seen@ == after_grace(old(self).seen@, t.take(i as int), self.me@, now_ms),
            decreases rows.len() - i,
        {
            assert(t.take(i + 1).drop_last() =~= t.take(i as int));
            assert(t[i as int] == rows@[i as int]@);
            if !is_heartbeat_key(rows[i].lease_key.as_str()) {
                if let Some(o) = clone_optional(&rows[i].owner) {
                    if !text::same(o.as_str(), self.me.as_str()) && !self.seen.contains_key(
                        o.as_str(),
                    ) {
                        self.seen.insert(o, Seen { counter: 0, last_change_ms: now_ms });
                    }
                }
            }
            i = i + 1;
        }
        assert(t.take(i as int) =~= t);
    }

    fn snapshot_of(&self, rows: &[RawLease], now_ms: u64) -> (r: Vec<LeaseSnapshot>)
        ensures
            taker::rows(r@) == snapshot(
                self.seen@,
                self.me@,
                self.lease_duration_ms,
                raw_rows(rows@),
                now_ms,
            ),
    {
        let ghost t = raw_rows(rows@);
        let ghost keep = |r: RawRow| !names_heartbeat(r.key);
        let ghost image = |r: RawRow|
            snapshot_row(self.seen@, self.me@, self.lease_duration_ms, r, now_ms);
        let mut snap: Vec<LeaseSnapshot> = Vec::new();
        let mut i: usize = 0;
        assert(taker::rows(snap@) =~= t.take(0).filter(keep).map_values(image)) by {
            reveal(Seq::filter);
        }
        while i < rows.len()
            invariant
                i <= rows.len(),
                t == raw_rows(rows@),
                keep == (|r: RawRow| !names_heartbeat(r.key)),
                image == (|r: RawRow|
                    snapshot_row(self.seen@, self.me@, self.lease_duration_ms, r, now_ms)),
                taker::rows(snap@) == t.take(i as int).filter(keep).map_values(image),
            decreases rows.len() - i,
        {
            proof {
                collections::lemma_filter_step(t, i as int, keep);
            }
            assert(t[i as int] == rows@[i as int]@);
            if !is_heartbeat_key(rows[i].lease_key.as_str()) {
                let expired = self.is_owner_expired(&rows[i].owner, now_ms);
                let entry = LeaseSnapshot {
                    lease_key: rows[i].lease_key.clone(),
                    owner: clone_optional(&rows[i].owner),
                    expired,
                    completed: rows[i].completed,
                };
                let ghost before = snap@;
                snap.push(entry);
                assert(taker::rows(snap@) =~= taker::rows(before).push(image(t[i as int])));
                assert(t.take(i + 1).filter(keep).map_values(image) =~= t.take(i as int).filter(
                    keep,
                ).map_values(image).push(image(t[i as int])));
            }
            i = i + 1;
        }
        assert(t.take(i as int) =~= t);
        snap
    }

    /// Is the owner of a lease dead? A lease that nobody owns, or that this
    /// worker owns, is not expired.
    pub fn is_owner_expired(&self, owner: &Option<String>, now_ms: u64) -> (r: bool)
        ensures
            r == owner_expired(
                self.seen(),
                self.me(),
                self.duration(),
                collections::optional_text(*owner),
                now_ms,
            ),
    {
        match owner {
            None => false,
            Some(o) => {
                if text::same(o.as_str(), self.me.as_str()) {
                    false
                } else {
                    match self.seen.get(o.as_str()) {
                        Some(s) => now_ms.saturating_sub(s.last_change_ms) > self.lease_duration_ms,
                        None => false,
                    }
                }
            },
        }
    }
}

/// The owners that a scan mentions.
fn owners(rows: &[RawLease]) -> (r: StringSet)
    ensures
        r@ == mentioned(raw_rows(rows@)),
{
    let ghost t = raw_rows(rows@);
    let mut r = StringSet::new();
    let mut i: usize = 0;
    while i < rows.len()
        invariant
            i <= rows.len(),
            t == raw_rows(rows@),
            r@ == mentioned(t.take(i as int)),
        decreases rows.len() - i,
    {
        assert(t.take(i + 1).drop_last() =~= t.take(i as int));
        assert(t[i as int] == rows@[i as int]@);
        if let Some(o) = clone_optional(&rows[i].owner) {
            r.insert(o);
        }
        i = i + 1;
    }
    assert(t.take(i as int) =~= t);
    r
}

/// `r` is a heartbeat row of `worker`.
pub open spec fn is_heartbeat_of(r: RawRow, worker: Seq<char>) -> bool {
    names_heartbeat(r.key) && r.owner == Some(worker)
}

/// `worker` heartbeats in this scan, with the counter `counter`.
pub open spec fn heartbeats_with(rows: Seq<RawRow>, worker: Seq<char>, counter: u64) -> bool {
    &&& exists|i: int| 0 <= i < rows.len() && is_heartbeat_of(#[trigger] rows[i], worker)
    &&& forall|i: int|
        0 <= i < rows.len() && is_heartbeat_of(#[trigger] rows[i], worker) ==> rows[i].counter
            == counter
}

proof fn lemma_no_heartbeat(seen: Map<Seq<char>, Seen>, rows: Seq<RawRow>, now: u64, w: Seq<char>)
    requires
        forall|i: int| 0 <= i < rows.len() ==> !is_heartbeat_of(#[trigger] rows[i], w),
    ensures
        after_heartbeats(seen, rows, now).contains_key(w) == seen.contains_key(w),
        seen.contains_key(w) ==> after_heartbeats(seen, rows, now)[w] == seen[w],
    decreases rows.len(),
{
    if rows.len() > 0 {
        assert(!is_heartbeat_of(rows[rows.len() - 1], w));
        assert forall|i: int| 0 <= i < rows.drop_last().len() implies !is_heartbeat_of(
            #[trigger] rows.drop_last()[i],
            w,
        ) by {
            assert(rows.drop_last()[i] == rows[i]);
        }
        lemma_no_heartbeat(seen, rows.drop_last(), now, w);
    }
}

pub proof fn lemma_heartbeat(
    seen: Map<Seq<char>, Seen>,
    rows: Seq<RawRow>,
    now: u64,
    w: Seq<char>,
    c: u64,
)
    requires
        heartbeats_with(rows, w, c),
    ensures
        after_heartbeats(seen, rows, now).contains_key(w),
        after_heartbeats(seen, rows, now)[w].counter == c,
        after_heartbeats(seen, rows, now)[w].last_change_ms == (if seen.contains_key(w)
            && seen[w].counter == c {
            seen[w].last_change_ms
        } else {
            now
        }),
    decreases rows.len(),
{
    let rest = rows.drop_last();
    let last = rows.last();
    assert(rows[rows.len() - 1] == last);
    assert forall|i: int| 0 <= i < rest.len() && is_heartbeat_of(#[trigger] rest[i], w) implies
        rest[i].counter == c by {
        assert(rest[i] == rows[i]);
    }
    if exists|i: int| 0 <= i < rest.len() && is_heartbeat_of(#[trigger] rest[i], w) {
        lemma_heartbeat(seen, rest, now, w, c);
    } else {
        lemma_no_heartbeat(seen, rest, now, w);
        let i = choose|i: int| 0 <= i < rows.len() && is_heartbeat_of(#[trigger] rows[i], w);
        if i < rest.len() {
            assert(rest[i] == rows[i]);
        }
    }
}

pub proof fn lemma_grace(seen: Map<Seq<char>, Seen>, rows: Seq<RawRow>, me: Seq<char>, now: u64, w: Seq<char>)
    ensures
        seen.contains_key(w) ==> after_grace(seen, rows, me, now).contains_key(w) && after_grace(
            seen,
            rows,
            me,
            now,
        )[w] == seen[w],
        !seen.contains_key(w) && after_grace(seen, rows, me, now).contains_key(w) ==> after_grace(
            seen,
            rows,
            me,
            now,
        )[w] == (Seen { counter: 0, last_change_ms: now }),
    decreases rows.len(),
{
    if rows.len() > 0 {
        lemma_grace(seen, rows.drop_last(), me, now, w);
    }
}

pub proof fn lemma_mentioned(rows: Seq<RawRow>, w: Seq<char>)
    ensures
        mentioned(rows).contains(w) <==> exists|i: int|
            0 <= i < rows.len() && #[trigger] rows[i].owner == Some(w),
    decreases rows.len(),
{
    if rows.len() > 0 {
        let rest = rows.drop_last();
        lemma_mentioned(rest, w);
        if mentioned(rest).contains(w) {
            let i = choose|i: int| 0 <= i < rest.len() && #[trigger] rest[i].owner == Some(w);
            assert(rows[i].owner == Some(w));
        }
        if exists|i: int| 0 <= i < rows.len() && #[trigger] rows[i].owner == Some(w) {
            let i = choose|i: int| 0 <= i < rows.len() && #[trigger] rows[i].owner == Some(w);
            if i < rest.len() {
                assert(rest[i].owner == Some(w));
            }
        }
        if rows.last().owner == Some(w) {
            assert(rows[rows.len() - 1].owner == Some(w));
        }
    }
}

/// A worker whose heartbeat counter advanced, or is seen for the first time,
/// is alive: none of its leases is expired, whatever their own counters say.
pub proof fn law_live_worker_keeps_its_leases(
    seen: Map<Seq<char>, Seen>,
    rows: Seq<RawRow>,
    me: Seq<char>,
    duration: u64,
    now: u64,
    worker: Seq<char>,
    counter: u64,
)
    requires
        heartbeats_with(rows, worker, counter),
        !(seen.contains_key(worker) && seen[worker].counter == counter),
    ensures
        !owner_expired(observed(seen, rows, me, now), me, duration, Some(worker), now),
{
    lemma_heartbeat(seen, rows, now, worker, counter);
    lemma_grace(after_heartbeats(seen, rows, now), rows, me, now, worker);
}

/// Another worker whose heartbeat counter stood still for longer than the
/// lease duration is dead: every unfinished lease that it holds is available.
pub proof fn law_dead_worker_frees_all_its_leases(
    seen: Map<Seq<char>, Seen>,
    rows: Seq<RawRow>,
    me: Seq<char>,
    duration: u64,
    now: u64,
    worker: Seq<char>,
    counter: u64,
    lease: RawRow,
)
    requires
        worker != me,
        heartbeats_with(rows, worker, counter),
        seen.contains_key(worker),
        seen[worker].counter == counter,
        now - seen[worker].last_change_ms > duration,
        rows.contains(lease),
        lease.owner == Some(worker),
        !lease.completed,
    ensures
        taker::is_available(
            snapshot_row(observed(seen, rows, me, now), me, duration, lease, now),
            me,
        ),
{
    lemma_heartbeat(seen, rows, now, worker, counter);
    lemma_grace(after_heartbeats(seen, rows, now), rows, me, now, worker);
    lemma_mentioned(rows, worker);
    assert(rows[rows.index_of(lease)].owner == Some(worker));
}

/// An owner that never heartbeats is granted one lease duration from when it
/// is first seen; after that its unfinished leases are available.
pub proof fn law_owner_without_heartbeat_has_one_duration_of_grace(
    seen: Map<Seq<char>, Seen>,
    rows: Seq<RawRow>,
    me: Seq<char>,
    duration: u64,
    now: u64,
    worker: Seq<char>,
    lease: RawRow,
)
    requires
        worker != me,
        forall|i: int| 0 <= i < rows.len() ==> !is_heartbeat_of(#[trigger] rows[i], worker),
        rows.contains(lease),
        !names_heartbeat(lease.key),
        lease.owner == Some(worker),
        !lease.completed,
    ensures
        !seen.contains_key(worker) ==> !owner_expired(
            observed(seen, rows, me, now),
            me,
            duration,
            Some(worker),
            now,
        ),
        seen.contains_key(worker) && now - seen[worker].last_change_ms > duration
            ==> taker::is_available(
            snapshot_row(observed(seen, rows, me, now), me, duration, lease, now),
            me,
        ),
        seen.contains_key(worker) ==> observed(seen, rows, me, now)[worker] == seen[worker],
{
    lemma_no_heartbeat(seen, rows, now, worker);
    lemma_grace(after_heartbeats(seen, rows, now), rows, me, now, worker);
    lemma_mentioned(rows, worker);
    assert(rows[rows.index_of(lease)].owner == Some(worker));
}

/// A worker that a scan does not mention is forgotten, so that it gets a fresh
/// grace period when it comes back.
pub proof fn law_forgets_workers_that_disappear(
    seen: Map<Seq<char>, Seen>,
    rows: Seq<RawRow>,
    me: Seq<char>,
    now: u64,
    worker: Seq<char>,
)
    requires
        forall|i: int| 0 <= i < rows.len() ==> #[trigger] rows[i].owner != Some(worker),
    ensures
        !observed(seen, rows, me, now).contains_key(worker),
{
    lemma_mentioned(rows, worker);
}

/// The worker that decides never treats its own leases as expired.
pub proof fn law_own_leases_never_expire(
    seen: Map<Seq<char>, Seen>,
    me: Seq<char>,
    duration: u64,
    now: u64,
)
    ensures
        !owner_expired(seen, me, duration, Some(me), now),
{
}

/// A heartbeat row is never among the leases to take.
pub proof fn law_heartbeat_rows_are_never_taken(
    seen: Map<Seq<char>, Seen>,
    rows: Seq<RawRow>,
    me: Seq<char>,
    duration: u64,
    now: u64,
    max_take: nat,
    take: Seq<Seq<char>>,
    key: Seq<char>,
)
    requires
        taker::balances(snapshot(seen, me, duration, rows, now), me, max_take as int, take),
        take.contains(key),
    ensures
        !names_heartbeat(key),
{
    let t = snapshot(seen, me, duration, rows, now);
    taker::law_takes_only_leases_of_others(t, me, max_take, take, key);
    let r = choose|r: taker::LeaseRow| #[trigger]
        t.contains(r) && r.key == key && !r.completed && r.owner != Some(me);
    let i = t.index_of(r);
    rows.lemma_filter_pred(|x: RawRow| !names_heartbeat(x.key), i);
}

/// Two scans differ at most in the counters of shard leases.
pub open spec fn same_but_shard_counters(a: Seq<RawRow>, b: Seq<RawRow>) -> bool {
    &&& a.len() == b.len()
    &&& forall|i: int|
        0 <= i < a.len() ==> (#[trigger] a[i]).key == b[i].key && a[i].owner == b[i].owner
            && a[i].completed == b[i].completed && (names_heartbeat(a[i].key) ==> a[i].counter
            == b[i].counter)
}

/// The counters of shard leases have no influence on what is taken.
pub proof fn law_shard_counters_do_not_matter(
    seen: Map<Seq<char>, Seen>,
    a: Seq<RawRow>,
    b: Seq<RawRow>,
    me: Seq<char>,
    duration: u64,
    now: u64,
)
    requires
        same_but_shard_counters(a, b),
    ensures
        observed(seen, a, me, now) == observed(seen, b, me, now),
        snapshot(observed(seen, a, me, now), me, duration, a, now) == snapshot(
            observed(seen, b, me, now),
            me,
            duration,
            b,
            now,
        ),
{
    lemma_same_folds(seen, a, b, me, now);
    lemma_same_grace(after_heartbeats(seen, a, now), a, b, me, now);
    lemma_same_snapshot(observed(seen, a, me, now), a, b, me, duration, now);
}

proof fn lemma_same_folds(
    seen: Map<Seq<char>, Seen>,
    a: Seq<RawRow>,
    b: Seq<RawRow>,
    me: Seq<char>,
    now: u64,
)
    requires
        same_but_shard_counters(a, b),
    ensures
        after_heartbeats(seen, a, now) == after_heartbeats(seen, b, now),
        mentioned(a) == mentioned(b),
    decreases a.len(),
{
    if a.len() > 0 {
        lemma_same_tail(a, b);
        lemma_same_folds(seen, a.drop_last(), b.drop_last(), me, now);
        assert(a[a.len() - 1].key == b[b.len() - 1].key);
    }
}

proof fn lemma_same_tail(a: Seq<RawRow>, b: Seq<RawRow>)
    requires
        same_but_shard_counters(a, b),
        a.len() > 0,
    ensures
        same_but_shard_counters(a.drop_last(), b.drop_last()),
{
    assert forall|i: int| 0 <= i < a.drop_last().len() implies (#[trigger] a.drop_last()[i]).key
        == b.drop_last()[i].key && a.drop_last()[i].owner == b.drop_last()[i].owner
        && a.drop_last()[i].completed == b.drop_last()[i].completed && (names_heartbeat(
        a.drop_last()[i].key,
    ) ==> a.drop_last()[i].counter == b.drop_last()[i].counter) by {
        assert(a[i].key == b[i].key);
    }
}

proof fn lemma_same_grace(
    seen: Map<Seq<char>, Seen>,
    a: Seq<RawRow>,
    b: Seq<RawRow>,
    me: Seq<char>,
    now: u64,
)
    requires
        same_but_shard_counters(a, b),
    ensures
        after_grace(seen, a, me, now) == after_grace(seen, b, me, now),
    decreases a.len(),
{
    if a.len() > 0 {
        lemma_same_tail(a, b);
        lemma_same_grace(seen, a.drop_last(), b.drop_last(), me, now);
        assert(a[a.len() - 1].key == b[b.len() - 1].key);
    }
}

proof fn lemma_same_snapshot(
    seen: Map<Seq<char>, Seen>,
    a: Seq<RawRow>,
    b: Seq<RawRow>,
    me: Seq<char>,
    duration: u64,
    now: u64,
)
    requires
        same_but_shard_counters(a, b),
    ensures
        snapshot(seen, me, duration, a, now) == snapshot(seen, me, duration, b, now),
    decreases a.len(),
{
    reveal(Seq::filter);
    if a.len() > 0 {
        lemma_same_tail(a, b);
        lemma_same_snapshot(seen, a.drop_last(), b.drop_last(), me, duration, now);
        let image = |r: RawRow| snapshot_row(seen, me, duration, r, now);
        assert(a[a.len() - 1].key == b[b.len() - 1].key);
        if !names_heartbeat(a.last().key) {
            assert(snapshot(seen, me, duration, a, now) =~= snapshot(
                seen,
                me,
                duration,
                a.drop_last(),
                now,
            ).push(image(a.last())));
            assert(snapshot(seen, me, duration, b, now) =~= snapshot(
                seen,
                me,
                duration,
                b.drop_last(),
                now,
            ).push(image(b.last())));
        }
    } else {
        assert(a =~= b);
    }
}

/// Heartbeat keys are recognised as such, and those of two workers differ.
pub proof fn law_heartbeat_keys(a: Seq<char>, b: Seq<char>)
    ensures
        names_heartbeat(heartbeat_prefix() + a),
        heartbeat_prefix() + a == heartbeat_prefix() + b ==> a == b,
{
    let p = heartbeat_prefix();
    assert((p + a).subrange(0, p.len() as int) =~= p);
    assert((p + a).skip(p.len() as int) =~= a);
    assert((p + b).skip(p.len() as int) =~= b);
}

/// One scan of the table, and when it was made.
pub struct Tick {
    pub rows: Seq<RawRow>,
    pub now: u64,
}

/// The freshness after the first `n` ticks.
pub open spec fn seen_after(ticks: Seq<Tick>, n: int, me: Seq<char>) -> Map<Seq<char>, Seen>
    decreases n,
{
    if n <= 0 {
        Map::empty()
    } else {
        observed(seen_after(ticks, n - 1, me), ticks[n - 1].rows, me, ticks[n - 1].now)
    }
}

/// A scan has one heartbeat row of each worker at most.
pub open spec fn beats_once(rows: Seq<RawRow>) -> bool {
    forall|i: int, j: int, w: Seq<char>|
        0 <= i < rows.len() && 0 <= j < rows.len() && #[trigger] is_heartbeat_of(rows[i], w)
            && #[trigger] is_heartbeat_of(rows[j], w) ==> i == j
}

/// `worker` heartbeats in this scan.
pub open spec fn beats(rows: Seq<RawRow>, worker: Seq<char>) -> bool {
    exists|i: int| 0 <= i < rows.len() && #[trigger] is_heartbeat_of(rows[i], worker)
}

/// The counter with which `worker` heartbeats in this scan.
pub open spec fn beat_of(rows: Seq<RawRow>, worker: Seq<char>) -> u64 {
    rows[choose|i: int|
        0 <= i < rows.len() && #[trigger] is_heartbeat_of(rows[i], worker)].counter
}

/// The last counter of `worker` in the first `n` ticks, since it was last absent
/// from a scan; zero if there was none.
pub open spec fn noted(ticks: Seq<Tick>, n: int, worker: Seq<char>) -> u64
    decreases n,
{
    if n <= 0 || !mentioned(ticks[n - 1].rows).contains(worker) {
        0
    } else if beats(ticks[n - 1].rows, worker) {
        beat_of(ticks[n - 1].rows, worker)
    } else {
        noted(ticks, n - 1, worker)
    }
}

/// Tick `i` shows a sign of life of `worker`: it is there for the first time
/// since it was last absent, or its counter is another one than before.
pub open spec fn is_sign_of_life(ticks: Seq<Tick>, i: int, worker: Seq<char>) -> bool {
    &&& mentioned(ticks[i].rows).contains(worker)
    &&& {
        ||| i == 0
        ||| !mentioned(ticks[i - 1].rows).contains(worker)
        ||| beats(ticks[i].rows, worker) && beat_of(ticks[i].rows, worker) != noted(
            ticks,
            i,
            worker,
        )
    }
}

/// Of the first `n` ticks, `i` shows the last sign of life of `worker`, which
/// was not absent from a scan since.
pub open spec fn is_last_sign(ticks: Seq<Tick>, n: int, worker: Seq<char>, i: int) -> bool {
    &&& 0 <= i < n
    &&& is_sign_of_life(ticks, i, worker)
    &&& forall|j: int|
        i < j < n ==> mentioned((#[trigger] ticks[j]).rows).contains(worker) && !is_sign_of_life(
            ticks,
            j,
            worker,
        )
}

/// Every other owner of a shard lease is known after grace was granted.
proof fn lemma_granted(
    seen: Map<Seq<char>, Seen>,
    rows: Seq<RawRow>,
    me: Seq<char>,
    now: u64,
    i: int,
    w: Seq<char>,
)
    requires
        0 <= i < rows.len(),
        rows[i].owner == Some(w),
        !names_heartbeat(rows[i].key),
        w != me,
    ensures
        after_grace(seen, rows, me, now).contains_key(w),
    decreases rows.len(),
{
    if i < rows.len() - 1 {
        assert(rows.drop_last()[i] == rows[i]);
        lemma_granted(seen, rows.drop_last(), me, now, i, w);
    }
}

/// What one tick does to the freshness of a worker.
proof fn lemma_observed(
    seen: Map<Seq<char>, Seen>,
    rows: Seq<RawRow>,
    me: Seq<char>,
    now: u64,
    w: Seq<char>,
)
    requires
        beats_once(rows),
        w != me,
    ensures
        observed(seen, rows, me, now).contains_key(w) <==> mentioned(rows).contains(w),
        mentioned(rows).contains(w) ==> observed(seen, rows, me, now)[w] == (Seen {
            counter: if beats(rows, w) {
                beat_of(rows, w)
            } else if seen.contains_key(w) {
                seen[w].counter
            } else {
                0
            },
            last_change_ms: if seen.contains_key(w) && (beats(rows, w) ==> beat_of(rows, w)
                == seen[w].counter) {
                seen[w].last_change_ms
            } else {
                now
            },
        }),
{
    lemma_mentioned(rows, w);
    if beats(rows, w) {
        let i = choose|i: int| 0 <= i < rows.len() && #[trigger] is_heartbeat_of(rows[i], w);
        let c = rows[i].counter;
        assert(heartbeats_with(rows, w, c)) by {
            assert(is_heartbeat_of(rows[i], w));
        }
        lemma_heartbeat(seen, rows, now, w, c);
        lemma_grace(after_heartbeats(seen, rows, now), rows, me, now, w);
        assert(rows[i].owner == Some(w));
    } else {
        assert forall|i: int| 0 <= i < rows.len() implies !is_heartbeat_of(
            #[trigger] rows[i],
            w,
        ) by {}
        lemma_no_heartbeat(seen, rows, now, w);
        let beaten = after_heartbeats(seen, rows, now);
        lemma_grace(beaten, rows, me, now, w);
        if mentioned(rows).contains(w) {
            let i = choose|i: int| 0 <= i < rows.len() && #[trigger] rows[i].owner == Some(w);
            assert(!is_heartbeat_of(rows[i], w));
            lemma_granted(beaten, rows, me, now, i, w);
        }
    }
}

/// Over any series of ticks, what is known of another worker is its last
/// counter, and the time of its last sign of life.
pub proof fn law_freshness_dates_from_the_last_sign_of_life(
    ticks: Seq<Tick>,
    n: int,
    me: Seq<char>,
    worker: Seq<char>,
    i: int,
)
    requires
        0 <= n <= ticks.len(),
        forall|k: int| 0 <= k < ticks.len() ==> beats_once((#[trigger] ticks[k]).rows),
        worker != me,
    ensures
        seen_after(ticks, n, me).contains_key(worker) <==> n > 0 && mentioned(
            ticks[n - 1].rows,
        ).contains(worker),
        seen_after(ticks, n, me).contains_key(worker) ==> seen_after(ticks, n, me)[worker].counter
            == noted(ticks, n, worker),
        is_last_sign(ticks, n, worker, i) ==> seen_after(ticks, n, me).contains_key(worker)
            && seen_after(ticks, n, me)[worker].last_change_ms == ticks[i].now,
        seen_after(ticks, n, me).contains_key(worker) ==> exists|k: int| #[trigger]
            is_last_sign(ticks, n, worker, k),
    decreases n,
{
    if n > 0 {
        let t = ticks[n - 1];
        let before = seen_after(ticks, n - 1, me);
        law_freshness_dates_from_the_last_sign_of_life(ticks, n - 1, me, worker, i);
        lemma_observed(before, t.rows, me, t.now, worker);
        if !before.contains_key(worker) {
            assert(noted(ticks, n - 1, worker) == 0);
        }
        if mentioned(t.rows).contains(worker) {
            if is_sign_of_life(ticks, n - 1, worker) {
                assert(is_last_sign(ticks, n, worker, n - 1));
                assert(is_last_sign(ticks, n, worker, i) ==> i == n - 1) by {
                    if is_last_sign(ticks, n, worker, i) && i < n - 1 {
                        assert(!is_sign_of_life(ticks, n - 1, worker)) by {
                            assert(mentioned(ticks[n - 1].rows).contains(worker));
                        }
                    }
                }
            } else {
                assert(before.contains_key(worker));
                let k = choose|k: int| #[trigger] is_last_sign(ticks, n - 1, worker, k);
                assert(is_last_sign(ticks, n, worker, k));
                if is_last_sign(ticks, n, worker, i) {
                    assert(i < n - 1);
                    assert(is_last_sign(ticks, n - 1, worker, i));
                }
            }
        }
    }
}

/// Over any series of ticks, the lease of another worker is expired exactly if
/// its last sign of life is longer ago than the lease duration; a worker that
/// owns a lease in the last scan has shown one.
pub proof fn law_expiry_counts_from_the_last_sign_of_life(
    ticks: Seq<Tick>,
    me: Seq<char>,
    duration: u64,
    lease: RawRow,
    worker: Seq<char>,
    i: int,
)
    requires
        ticks.len() > 0,
        forall|k: int| 0 <= k < ticks.len() ==> beats_once((#[trigger] ticks[k]).rows),
        ticks.last().rows.contains(lease),
        lease.owner == Some(worker),
        worker != me,
    ensures
        exists|k: int| #[trigger] is_last_sign(ticks, ticks.len() as int, worker, k),
        is_last_sign(ticks, ticks.len() as int, worker, i) ==> (snapshot_row(
            seen_after(ticks, ticks.len() as int, me),
            me,
            duration,
            lease,
            ticks.last().now,
        ).expired <==> ticks.last().now - ticks[i].now > duration),
{
    let rows = ticks.last().rows;
    lemma_mentioned(rows, worker);
    assert(rows[rows.index_of(lease)].owner == Some(worker));
    law_freshness_dates_from_the_last_sign_of_life(ticks, ticks.len() as int, me, worker, i);
}

/// The row begins with the mark of heartbeats, so that it is no shard lease.
pub open spec fn is_beat(r: RawLease) -> bool {
    r.lease_key@.len() >= 7 && r.lease_key@.take(7) == "__hb__:"@
}

/// The row stands under the name of `w`.
pub open spec fn is_held_by(r: RawLease, w: Seq<char>) -> bool {
    r.owner is Some && r.owner->0@ == w
}

/// The shard leases among the first `n` rows of a scan.
pub open spec fn shards_before(rows: Seq<RawLease>, n: int) -> nat
    decreases n,
{
    if n <= 0 {
        0
    } else if is_beat(rows[n - 1]) {
        shards_before(rows, n - 1)
    } else {
        shards_before(rows, n - 1) + 1
    }
}

pub proof fn lemma_beat(r: RawLease)
    ensures
        names_heartbeat(r@.key) == is_beat(r),
{
    reveal_strlit("__hb__:");
    assert("__hb__:"@.len() == 7);
    if r.lease_key@.len() >= 7 {
        assert(r.lease_key@.take(7) =~= r.lease_key@.subrange(0, 7));
    }
}

/// What a scan shows of another worker: one that no row names is forgotten; one
/// that heartbeats is as fresh as its counter, dated from now if that changed;
/// one that only holds leases is dated from when it was first seen.
pub proof fn law_a_scan_tells_how_fresh_a_worker_is(
    seen: Map<Seq<char>, Seen>,
    rows: Seq<RawLease>,
    me: Seq<char>,
    now: u64,
    w: Seq<char>,
    i: int,
)
    requires
        w != me,
    ensures
        observed(seen, raw_rows(rows), me, now).contains_key(w) <==> exists|k: int|
            0 <= k < rows.len() && is_held_by(#[trigger] rows[k], w),
        0 <= i < rows.len() && is_beat(rows[i]) && is_held_by(rows[i], w) && (forall|k: int|
            0 <= k < rows.len() && is_beat(#[trigger] rows[k]) && is_held_by(rows[k], w)
                ==> rows[k].lease_counter == rows[i].lease_counter) ==> observed(
            seen,
            raw_rows(rows),
            me,
            now,
        )[w] == (Seen {
            counter: rows[i].lease_counter,
            last_change_ms: if seen.contains_key(w) && seen[w].counter == rows[i].lease_counter {
                seen[w].last_change_ms
            } else {
                now
            },
        }),
        0 <= i < rows.len() && is_held_by(rows[i], w) && (forall|k: int|
            0 <= k < rows.len() && is_beat(#[trigger] rows[k]) ==> !is_held_by(rows[k], w))
            ==> observed(seen, raw_rows(rows), me, now)[w] == (if seen.contains_key(w) {
            seen[w]
        } else {
            Seen { counter: 0, last_change_ms: now }
        }),
{
    let t = raw_rows(rows);
    let beaten = after_heartbeats(seen, t, now);
    assert forall|k: int| 0 <= k < rows.len() implies #[trigger] t[k] == rows[k]@
        && names_heartbeat(t[k].key) == is_beat(rows[k]) && (t[k].owner == Some(w)) == is_held_by(
        rows[k],
        w,
    ) by {
        lemma_beat(rows[k]);
    }
    lemma_mentioned(t, w);
    lemma_grace(beaten, t, me, now, w);
    if exists|k: int| 0 <= k < rows.len() && is_held_by(#[trigger] rows[k], w) {
        let k = choose|k: int| 0 <= k < rows.len() && is_held_by(#[trigger] rows[k], w);
        assert(t[k].owner == Some(w));
        assert(mentioned(t).contains(w));
        if is_beat(rows[k]) {
            lemma_beaten(seen, t, now, k, w);
        } else {
            lemma_granted(beaten, t, me, now, k, w);
        }
    }
    if mentioned(t).contains(w) {
        let k = choose|k: int| 0 <= k < t.len() && #[trigger] t[k].owner == Some(w);
        assert(t[k] == rows[k]@);
        assert(is_held_by(rows[k], w));
    }
    if 0 <= i < rows.len() && is_held_by(rows[i], w) {
        assert(t[i].owner == Some(w));
        if is_beat(rows[i]) && forall|k: int|
            0 <= k < rows.len() && is_beat(#[trigger] rows[k]) && is_held_by(rows[k], w)
                ==> rows[k].lease_counter == rows[i].lease_counter {
            let c = rows[i].lease_counter;
            assert(heartbeats_with(t, w, c)) by {
                assert(is_heartbeat_of(t[i], w));
                assert forall|k: int|
                    0 <= k < t.len() && is_heartbeat_of(#[trigger] t[k], w) implies t[k].counter
                    == c by {
                    assert(t[k] == rows[k]@);
                }
            }
            lemma_heartbeat(seen, t, now, w, c);
        }
        if forall|k: int|
            0 <= k < rows.len() && is_beat(#[trigger] rows[k]) ==> !is_held_by(rows[k], w) {
            assert forall|k: int| 0 <= k < t.len() implies !is_heartbeat_of(#[trigger] t[k], w) by {
                assert(t[k] == rows[k]@);
            }
            lemma_no_heartbeat(seen, t, now, w);
            lemma_granted(beaten, t, me, now, i, w);
        }
    }
}

/// A worker that heartbeats is known.
proof fn lemma_beaten(seen: Map<Seq<char>, Seen>, rows: Seq<RawRow>, now: u64, i: int, w: Seq<char>)
    requires
        0 <= i < rows.len(),
        is_heartbeat_of(rows[i], w),
    ensures
        after_heartbeats(seen, rows, now).contains_key(w),
    decreases rows.len(),
{
    if i < rows.len() - 1 {
        assert(rows.drop_last()[i] == rows[i]);
        lemma_beaten(seen, rows.drop_last(), now, i, w);
    }
}

/// Every shard lease of a scan is balanced, in the order of the scan, with its
/// own key, owner and end, and nothing else is; it counts as expired exactly if
/// its owner is another worker that is known and was last fresh longer ago than
/// the lease duration.
pub proof fn law_every_shard_lease_is_balanced(
    seen: Map<Seq<char>, Seen>,
    rows: Seq<RawLease>,
    me: Seq<char>,
    duration: u64,
    now: u64,
    i: int,
)
    ensures
        snapshot(seen, me, duration, raw_rows(rows), now).len() == shards_before(
            rows,
            rows.len() as int,
        ),
        0 <= i < rows.len() && !is_beat(rows[i]) ==> ({
            let r = snapshot(seen, me, duration, raw_rows(rows), now)[shards_before(rows, i) as int];
            &&& shards_before(rows, i) < shards_before(rows, rows.len() as int)
            &&& r.key == rows[i].lease_key@
            &&& r.completed == rows[i].completed
            &&& r.owner is Some == rows[i].owner is Some
            &&& r.owner is Some ==> r.owner->0 == rows[i].owner->0@
            &&& r.expired <==> rows[i].owner is Some && rows[i].owner->0@ != me
                && seen.contains_key(rows[i].owner->0@) && now > seen[rows[i].owner->0@].last_change_ms
                + duration
        }),
    decreases rows.len(),
{
    let t = raw_rows(rows);
    let keep = |r: RawRow| !names_heartbeat(r.key);
    let image = |r: RawRow| snapshot_row(seen, me, duration, r, now);
    if rows.len() == 0 {
        assert(t.filter(keep).len() == 0) by {
            reveal(Seq::filter);
        }
    } else {
        let n = rows.len() - 1;
        let rest = rows.drop_last();
        law_every_shard_lease_is_balanced(seen, rest, me, duration, now, i);
        lemma_shards_of_prefix(rows, rest, n);
        assert(raw_rows(rest) =~= t.take(n));
        assert(t.take(n + 1) =~= t);
        collections::lemma_filter_step(t, n, keep);
        lemma_beat(rows[n]);
        assert(t[n] == rows[n]@);
        let before = snapshot(seen, me, duration, raw_rows(rest), now);
        let after = snapshot(seen, me, duration, t, now);
        if is_beat(rows[n]) {
            assert(after == before);
        } else {
            assert(after =~= before.push(image(t[n])));
        }
        if 0 <= i < n {
            lemma_shards_of_prefix(rows, rest, i);
            assert(rest[i] == rows[i]);
        }
    }
}

proof fn lemma_shards_of_prefix(rows: Seq<RawLease>, rest: Seq<RawLease>, n: int)
    requires
        n <= rest.len() <= rows.len(),
        forall|k: int| 0 <= k < rest.len() ==> rest[k] == rows[k],
    ensures
        shards_before(rows, n) == shards_before(rest, n),
    decreases n,
{
    if n > 0 {
        lemma_shards_of_prefix(rows, rest, n - 1);
    }
}

} // verus!
