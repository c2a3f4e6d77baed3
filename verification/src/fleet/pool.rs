//! The bounded processing pool: a fixed number of slots work off the shards that
//! are due, and idle shards back off between polls.
//!
//! The lease counter of a queued shard travels with it. Shards whose leases are
//! being renewed are set aside meanwhile, so that no slot can claim a counter
//! that is about to change.

use std::collections::VecDeque;

use vstd::prelude::*;

use crate::collections::{clone_optional, StringMap, StringSet};
use crate::collections;
use crate::fleet::pass::PassOutcome;

verus! {

/// The ceiling of the idle back-off, in milliseconds.
pub const MAX_IDLE_BACKOFF_MS: u64 = 5_000;

/// A shard that this worker owns and may read: its lease counter, and where it
/// resumes.
#[derive(Clone, Debug)]
pub struct OwnedShard {
    pub shard: String,
    pub counter: u64,
    pub checkpoint: Option<String>,
}

/// An owned shard, with text in place of strings.
pub struct OwnedModel {
    pub shard: Seq<char>,
    pub counter: u64,
    pub checkpoint: Option<Seq<char>>,
}

impl View for OwnedShard {
    type V = OwnedModel;

    open spec fn view(&self) -> OwnedModel {
        OwnedModel {
            shard: self.shard@,
            counter: self.counter,
            checkpoint: collections::optional_text(self.checkpoint),
        }
    }
}

/// Some owned shards, with text in place of strings.
pub open spec fn owned_models(s: Seq<OwnedShard>) -> Seq<OwnedModel> {
    s.map_values(|o: OwnedShard| o@)
}

/// The poll schedule of one shard.
#[derive(Clone, Copy, Debug, PartialEq, Eq, Structural)]
pub struct ShardSched {
    /// The idle back-off in milliseconds; zero if the shard was active last.
    pub backoff_ms: u64,
    /// The shard is polled at or after this time, in nanoseconds.
    pub due_at: u128,
}

/// One queued pass over a shard.
#[derive(Clone, Debug)]
pub struct PoolItem {
    pub shard: String,
    pub counter: u64,
    pub checkpoint: Option<String>,
    /// When it was queued, in nanoseconds.
    pub enqueued: u64,
    /// When its lease was last renewed, in nanoseconds.
    pub last_renewed: u64,
}

/// A queued pass, with text in place of strings.
pub struct ItemModel {
    pub shard: Seq<char>,
    pub counter: u64,
    pub checkpoint: Option<Seq<char>>,
    pub enqueued: u64,
    pub last_renewed: u64,
}

impl View for PoolItem {
    type V = ItemModel;

    open spec fn view(&self) -> ItemModel {
        ItemModel {
            shard: self.shard@,
            counter: self.counter,
            checkpoint: collections::optional_text(self.checkpoint),
            enqueued: self.enqueued,
            last_renewed: self.last_renewed,
        }
    }
}

/// Some queued passes, with text in place of strings.
pub open spec fn item_models(s: Seq<PoolItem>) -> Seq<ItemModel> {
    s.map_values(|i: PoolItem| i@)
}

/// The item for an owned shard that is queued at `now`.
pub open spec fn item_for(o: OwnedModel, now: u64) -> ItemModel {
    ItemModel {
        shard: o.shard,
        counter: o.counter,
        checkpoint: o.checkpoint,
        enqueued: now,
        last_renewed: now,
    }
}

/// The ids of some owned shards.
pub open spec fn owned_ids(s: Seq<OwnedModel>) -> Set<Seq<char>>
    decreases s.len(),
{
    if s.len() == 0 {
        Set::empty()
    } else {
        owned_ids(s.drop_last()).insert(s.last().shard)
    }
}

/// The schedule after `shard` was added, if it is new: it is due at once.
pub open spec fn scheduled(m: Map<Seq<char>, ShardSched>, shard: Seq<char>, now: u64) -> Map<
    Seq<char>,
    ShardSched,
> {
    if m.contains_key(shard) {
        m
    } else {
        m.insert(shard, ShardSched { backoff_ms: 0, due_at: now as u128 })
    }
}

/// The schedule after the given shards were added.
pub open spec fn all_scheduled(
    m: Map<Seq<char>, ShardSched>,
    owned: Seq<OwnedModel>,
    now: u64,
) -> Map<Seq<char>, ShardSched>
    decreases owned.len(),
{
    if owned.len() == 0 {
        m
    } else {
        scheduled(all_scheduled(m, owned.drop_last(), now), owned.last().shard, now)
    }
}

/// The schedule at the start of a cycle: shards that are not owned any more are
/// dropped, new ones are due at once.
pub open spec fn refreshed(
    m: Map<Seq<char>, ShardSched>,
    owned: Seq<OwnedModel>,
    now: u64,
) -> Map<Seq<char>, ShardSched> {
    all_scheduled(m.restrict(owned_ids(owned)), owned, now)
}

/// The shards of a cycle that are due, in order.
pub open spec fn due_items(
    m: Map<Seq<char>, ShardSched>,
    owned: Seq<OwnedModel>,
    now: u64,
) -> Seq<ItemModel> {
    owned.filter(
        |o: OwnedModel| refreshed(m, owned, now)[o.shard].due_at <= now,
    ).map_values(|o: OwnedModel| item_for(o, now))
}

/// The next idle back-off: the poll interval first, then twice as long each
/// time, never above the ceiling.
pub open spec fn next_backoff(backoff_ms: u64, poll_interval_ms: u64) -> u64 {
    if backoff_ms == 0 {
        if poll_interval_ms < 1 {
            1
        } else if poll_interval_ms <= MAX_IDLE_BACKOFF_MS {
            poll_interval_ms
        } else {
            MAX_IDLE_BACKOFF_MS
        }
    } else if 2 * backoff_ms <= MAX_IDLE_BACKOFF_MS {
        (2 * backoff_ms) as u64
    } else {
        MAX_IDLE_BACKOFF_MS
    }
}

/// The schedule of a shard after a pass: an active one stays due, an idle one
/// backs off.
pub open spec fn after_pass(
    e: ShardSched,
    outcome: PassOutcome,
    now: u64,
    poll_interval_ms: u64,
) -> ShardSched {
    if outcome == PassOutcome::Active {
        ShardSched { backoff_ms: 0, due_at: now as u128 }
    } else {
        let b = next_backoff(e.backoff_ms, poll_interval_ms);
        ShardSched { backoff_ms: b, due_at: (now + b * 1_000_000) as u128 }
    }
}

/// The schedule after one outcome: an ended or stopped shard leaves it.
pub open spec fn after_outcome(
    m: Map<Seq<char>, ShardSched>,
    shard: Seq<char>,
    outcome: PassOutcome,
    now: u64,
    poll_interval_ms: u64,
) -> Map<Seq<char>, ShardSched> {
    if outcome == PassOutcome::Ended || outcome == PassOutcome::Stopped {
        m.remove(shard)
    } else if m.contains_key(shard) {
        m.insert(shard, after_pass(m[shard], outcome, now, poll_interval_ms))
    } else {
        m
    }
}

/// The schedule after a series of outcomes.
pub open spec fn after_outcomes(
    m: Map<Seq<char>, ShardSched>,
    outcomes: Seq<(Seq<char>, PassOutcome)>,
    now: u64,
    poll_interval_ms: u64,
) -> Map<Seq<char>, ShardSched>
    decreases outcomes.len(),
{
    if outcomes.len() == 0 {
        m
    } else {
        let (shard, outcome) = outcomes.last();
        after_outcome(
            after_outcomes(m, outcomes.drop_last(), now, poll_interval_ms),
            shard,
            outcome,
            now,
            poll_interval_ms,
        )
    }
}

/// Outcomes, with text in place of strings.
pub open spec fn outcome_models(s: Seq<(String, PassOutcome)>) -> Seq<(Seq<char>, PassOutcome)> {
    s.map_values(|o: (String, PassOutcome)| (o.0@, o.1))
}

/// When each shard is polled next, across cycles.
pub struct Schedule {
    entries: StringMap<ShardSched>,
}

impl View for Schedule {
    type V = Map<Seq<char>, ShardSched>;

    closed spec fn view(&self) -> Map<Seq<char>, ShardSched> {
        self.entries@
    }
}

impl Schedule {
    /// A schedule without shards.
    pub fn new() -> (s: Schedule)
        ensures
            s@ == Map::<Seq<char>, ShardSched>::empty(),
    {
        Schedule { entries: StringMap::new() }
    }

    /// Start a cycle: drop the shards that are not owned any more, add the new
    /// ones, and select those that are due.
    pub fn refresh(&mut self, owned: &Vec<OwnedShard>, now_ns: u64) -> (due: Vec<PoolItem>)
        ensures
            final(self)@ == refreshed(old(self)@, owned_models(owned@), now_ns),
            item_models(due@) == due_items(old(self)@, owned_models(owned@), now_ns),
    {
        let ghost t = owned_models(owned@);
        let ghost m = self@;
        let mut ids = StringSet::new();
        let mut i: usize = 0;
        while i < owned.len()
            invariant
                i <= owned.len(),
                t == owned_models(owned@),
                ids@ == owned_ids(t.take(i as int)),
            decreases owned.len() - i,
        {
            assert(t.take(i + 1).drop_last() =~= t.take(i as int));
            assert(t[i as int] == owned@[i as int]@);
            ids.insert(owned[i].shard.clone());
            i = i + 1;
        }
        assert(t.take(i as int) =~= t);
        self.entries.retain_in(&ids);
        let ghost kept = self@;
        let mut n: usize = 0;
        while n < owned.len()
            invariant
                n <= owned.len(),
                t == owned_models(owned@),
                self@ == all_scheduled(kept, t.take(n as int), now_ns),
            decreases owned.len() - n,
        {
            assert(t.take(n + 1).drop_last() =~= t.take(n as int));
            assert(t[n as int] == owned@[n as int]@);
            if !self.entries.contains_key(owned[n].shard.as_str()) {
                self.entries.insert(
                    owned[n].shard.clone(),
                    ShardSched { backoff_ms: 0, due_at: now_ns as u128 },
                );
            }
            n = n + 1;
        }
        assert(t.take(n as int) =~= t);
        proof {
            assert forall|k: int| 0 <= k < owned.len() implies self@.contains_key(
                #[trigger] owned@[k].shard@,
            ) by {
                assert(t[k].shard == owned@[k].shard@);
                lemma_all_scheduled(kept, t, now_ns, t[k].shard);
            }
        }
        self.select_due(owned, now_ns)
    }

    /// The owned shards that are due.
    fn select_due(&self, owned: &Vec<OwnedShard>, now_ns: u64) -> (due: Vec<PoolItem>)
        requires
            forall|i: int| 0 <= i < owned.len() ==> self@.contains_key(#[trigger] owned@[i].shard@),
        ensures
            item_models(due@) == owned_models(owned@).filter(
                |o: OwnedModel| self@[o.shard].due_at <= now_ns,
            ).map_values(|o: OwnedModel| item_for(o, now_ns)),
    {
        let ghost t = owned_models(owned@);
        let ghost keep = |o: OwnedModel| self@[o.shard].due_at <= now_ns;
        let ghost image = |o: OwnedModel| item_for(o, now_ns);
        let mut due: Vec<PoolItem> = Vec::new();
        let mut i: usize = 0;
        assert(item_models(due@) =~= t.take(0).filter(keep).map_values(image)) by {
            reveal(Seq::filter);
        }
        while i < owned.len()
            invariant
                i <= owned.len(),
                t == owned_models(owned@),
                keep == (|o: OwnedModel| self@[o.shard].due_at <= now_ns),
                image == (|o: OwnedModel| item_for(o, now_ns)),
                forall|i: int| 0 <= i < owned.len() ==> self@.contains_key(
                    #[trigger] owned@[i].shard@,
                ),
                item_models(due@) == t.take(i as int).filter(keep).map_values(image),
            decreases owned.len() - i,
        {
            proof {
                collections::lemma_filter_step(t, i as int, keep);
            }
            assert(t[i as int] == owned@[i as int]@);
            assert(self@.contains_key(owned@[i as int].shard@));
            let is_due = match self.entries.get(owned[i].shard.as_str()) {
                Some(e) => e.due_at <= now_ns as u128,
                None => false,
            };
            if is_due {
                let item = PoolItem {
                    shard: owned[i].shard.clone(),
                    counter: owned[i].counter,
                    checkpoint: clone_optional(&owned[i].checkpoint),
                    enqueued: now_ns,
                    last_renewed: now_ns,
                };
                let ghost before = due@;
                due.push(item);
                assert(item_models(due@) =~= item_models(before).push(image(t[i as int])));
                assert(t.take(i + 1).filter(keep).map_values(image) =~= t.take(i as int).filter(
                    keep,
                ).map_values(image).push(image(t[i as int])));
            }
            i = i + 1;
        }
        assert(t.take(i as int) =~= t);
        due
    }

    /// When the next shard is due, if any is scheduled.
    pub fn next_due(&self) -> (r: Option<u128>)
        ensures
            match r {
                Some(t) => {
                    &&& exists|s: Seq<char>| #[trigger] self@.contains_key(s) && self@[s].due_at == t
                    &&& forall|s: Seq<char>| #[trigger] self@.contains_key(s) ==> t
                        <= self@[s].due_at
                },
                None => self@ == Map::<Seq<char>, ShardSched>::empty(),
            },
    {
        let ghost order = self.entries.order();
        proof {
            self.entries.lemma_order();
        }
        let mut best: Option<u128> = None;
        let mut i: usize = 0;
        while i < self.entries.len()
            invariant
                i <= order.len(),
                order == self.entries.order(),
                match best {
                    Some(t) => {
                        &&& exists|s: Seq<char>| #[trigger]
                            self@.contains_key(s) && self@[s].due_at == t
                        &&& forall|k: int| 0 <= k < i ==> t <= self@[#[trigger] order[k]].due_at
                    },
                    None => i == 0,
                },
            decreases order.len() - i,
        {
            let key = self.entries.key_at(i);
            if let Some(e) = self.entries.get(key.as_str()) {
                let better = match best {
                    Some(t) => e.due_at < t,
                    None => true,
                };
                if better {
                    assert(self@.contains_key(key@));
                    best = Some(e.due_at);
                }
            }
            i = i + 1;
        }
        proof {
            assert forall|s: Seq<char>| #[trigger] self@.contains_key(s) implies best is Some
                && best->0 <= self@[s].due_at by {
                assert(order.to_set().contains(s));
                let k = order.index_of(s);
                assert(order[k] == s);
            }
            if best is None {
                assert(self@ =~= Map::empty());
            }
        }
        best
    }

    /// Fold the outcomes of a cycle into the schedule.
    pub fn fold(&mut self, outcomes: &Vec<(String, PassOutcome)>, now_ns: u64, poll_interval_ms: u64)
        ensures
            final(self)@ == after_outcomes(
                old(self)@,
                outcome_models(outcomes@),
                now_ns,
                poll_interval_ms,
            ),
    {
        let ghost t = outcome_models(outcomes@);
        let mut i: usize = 0;
        while i < outcomes.len()
            invariant
                i <= outcomes.len(),
                t == outcome_models(outcomes@),
                self@ == after_outcomes(old(self)@, t.take(i as int), now_ns, poll_interval_ms),
            decreases outcomes.len() - i,
        {
            assert(t.take(i + 1).drop_last() =~= t.take(i as int));
            assert(t[i as int] == (outcomes@[i as int].0@, outcomes@[i as int].1));
            let shard = outcomes[i].0.clone();
            match outcomes[i].1 {
                PassOutcome::Active => {
                    if self.entries.contains_key(shard.as_str()) {
                        self.entries.insert(
                            shard,
                            ShardSched { backoff_ms: 0, due_at: now_ns as u128 },
                        );
                    }
                },
                PassOutcome::Idle => {
                    let backoff: Option<u64> = match self.entries.get(shard.as_str()) {
                        Some(e) => Some(e.backoff_ms),
                        None => None,
                    };
                    if let Some(b) = backoff {
                        let next: u64 = if b == 0 {
                            if poll_interval_ms < 1 {
                                1
                            } else if poll_interval_ms <= MAX_IDLE_BACKOFF_MS {
                                poll_interval_ms
                            } else {
                                MAX_IDLE_BACKOFF_MS
                            }
                        } else if b <= MAX_IDLE_BACKOFF_MS / 2 {
                            b * 2
                        } else {
                            MAX_IDLE_BACKOFF_MS
                        };
                        let due_at: u128 = (now_ns as u128) + (next as u128) * 1_000_000;
                        self.entries.insert(shard, ShardSched { backoff_ms: next, due_at });
                    }
                },
                PassOutcome::Ended | PassOutcome::Stopped => {
                    self.entries.remove(shard.as_str());
                },
            }
            i = i + 1;
        }
        assert(t.take(i as int) =~= t);
    }
}

proof fn lemma_owned_ids(owned: Seq<OwnedModel>, s: Seq<char>)
    ensures
        owned_ids(owned).contains(s) <==> exists|k: int|
            0 <= k < owned.len() && (#[trigger] owned[k]).shard == s,
    decreases owned.len(),
{
    if owned.len() > 0 {
        let rest = owned.drop_last();
        lemma_owned_ids(rest, s);
        if owned_ids(rest).contains(s) {
            let k = choose|k: int| 0 <= k < rest.len() && (#[trigger] rest[k]).shard == s;
            assert(owned[k].shard == s);
        }
        if exists|k: int| 0 <= k < owned.len() && (#[trigger] owned[k]).shard == s {
            let k = choose|k: int| 0 <= k < owned.len() && (#[trigger] owned[k]).shard == s;
            if k < rest.len() {
                assert(rest[k].shard == s);
            }
        }
        if owned.last().shard == s {
            assert(owned[owned.len() - 1].shard == s);
        }
    }
}

proof fn lemma_all_scheduled(
    m: Map<Seq<char>, ShardSched>,
    owned: Seq<OwnedModel>,
    now: u64,
    s: Seq<char>,
)
    ensures
        all_scheduled(m, owned, now).contains_key(s) <==> m.contains_key(s) || owned_ids(
            owned,
        ).contains(s),
        m.contains_key(s) ==> all_scheduled(m, owned, now)[s] == m[s],
        !m.contains_key(s) && owned_ids(owned).contains(s) ==> all_scheduled(m, owned, now)[s] == (
        ShardSched { backoff_ms: 0, due_at: now as u128 }),
        (exists|k: int| 0 <= k < owned.len() && (#[trigger] owned[k]).shard == s) ==> all_scheduled(
            m,
            owned,
            now,
        ).contains_key(s),
    decreases owned.len(),
{
    lemma_owned_ids(owned, s);
    if owned.len() > 0 {
        lemma_all_scheduled(m, owned.drop_last(), now, s);
    }
}

/// After a refresh, exactly the owned shards are scheduled: those that were
/// keep their place, the others are due at once.
pub proof fn law_refresh_keeps_owned_shards(
    m: Map<Seq<char>, ShardSched>,
    owned: Seq<OwnedModel>,
    now: u64,
    shard: Seq<char>,
)
    ensures
        refreshed(m, owned, now).contains_key(shard) <==> exists|k: int|
            0 <= k < owned.len() && (#[trigger] owned[k]).shard == shard,
        refreshed(m, owned, now).contains_key(shard) ==> refreshed(m, owned, now)[shard] == (
        if m.contains_key(shard) {
            m[shard]
        } else {
            ShardSched { backoff_ms: 0, due_at: now as u128 }
        }),
{
    lemma_owned_ids(owned, shard);
    lemma_all_scheduled(m.restrict(owned_ids(owned)), owned, now, shard);
}

/// An active shard is due at once. An idle one waits for the poll interval
/// first, then twice as long each time, but never longer than the ceiling,
/// whatever the poll interval.
pub proof fn law_backoff_is_bounded(e: ShardSched, now: u64, poll_interval_ms: u64)
    ensures
        after_pass(e, PassOutcome::Active, now, poll_interval_ms).due_at == now,
        after_pass(e, PassOutcome::Active, now, poll_interval_ms).backoff_ms == 0,
        ({
            let b = after_pass(e, PassOutcome::Idle, now, poll_interval_ms).backoff_ms;
            &&& 1 <= b <= MAX_IDLE_BACKOFF_MS
            &&& e.backoff_ms == 0 && 1 <= poll_interval_ms <= MAX_IDLE_BACKOFF_MS ==> b
                == poll_interval_ms
            &&& e.backoff_ms > 0 ==> b == (if 2 * e.backoff_ms <= MAX_IDLE_BACKOFF_MS {
                2 * e.backoff_ms
            } else {
                MAX_IDLE_BACKOFF_MS as int
            })
            &&& after_pass(e, PassOutcome::Idle, now, poll_interval_ms).due_at == now + b
                * 1_000_000
        }),
{
}

/// How long to sleep when no shard is due, in nanoseconds: until the next one
/// is, but no longer than one poll interval.
pub open spec fn idle_sleep(next_due: u128, now: u64, poll_interval_ms: u64) -> int {
    let wait = if next_due > now {
        next_due - now
    } else {
        0
    };
    let cap = (if poll_interval_ms >= 1 {
        poll_interval_ms as int
    } else {
        1
    }) * 1_000_000;
    if wait <= cap {
        wait
    } else {
        cap
    }
}

/// How long to sleep when no shard is due, in nanoseconds.
pub fn idle_wait(next_due: u128, now_ns: u64, poll_interval_ms: u64) -> (r: u128)
    ensures
        r == idle_sleep(next_due, now_ns, poll_interval_ms),
{
    let wait: u128 = next_due.saturating_sub(now_ns as u128);
    let cap: u128 = (if poll_interval_ms >= 1 {
        poll_interval_ms as u128
    } else {
        1
    }) * 1_000_000;
    if wait <= cap {
        wait
    } else {
        cap
    }
}

/// How long a shard may wait before its lease is renewed, in nanoseconds: a
/// third of the lease duration.
pub open spec fn renew_after(lease_duration_ms: u64) -> int {
    (if lease_duration_ms / 3 >= 1 {
        (lease_duration_ms / 3) as int
    } else {
        1
    }) * 1_000_000
}

/// How often waiting shards are looked at, in milliseconds: a sixth of the
/// lease duration, between one millisecond and one second.
pub open spec fn keep_alive_tick(lease_duration_ms: u64) -> int {
    let t = lease_duration_ms / 6;
    if t < 1 {
        1
    } else if t > 1_000 {
        1_000
    } else {
        t as int
    }
}

/// How often waiting shards are looked at, in milliseconds.
pub fn keep_alive_tick_ms(lease_duration_ms: u64) -> (r: u64)
    ensures
        r == keep_alive_tick(lease_duration_ms),
{
    let t: u64 = lease_duration_ms / 6;
    if t < 1 {
        1
    } else if t > 1_000 {
        1_000
    } else {
        t
    }
}

/// The lease of a queued item is to be renewed.
pub open spec fn is_stale(i: ItemModel, now: u64, lease_duration_ms: u64) -> bool {
    (if now >= i.last_renewed {
        now - i.last_renewed
    } else {
        0
    }) >= renew_after(lease_duration_ms)
}

/// What a slot gets when it asks for work.
pub enum Claim {
    /// This shard.
    Item(PoolItem),
    /// Nothing for now: a renewal is under way, after which there may be.
    Wait,
    /// Nothing any more in this cycle.
    Done,
}

/// What a slot gets, with text in place of strings.
pub enum ClaimModel {
    Item(ItemModel),
    Wait,
    Done,
}

impl View for Claim {
    type V = ClaimModel;

    open spec fn view(&self) -> ClaimModel {
        match self {
            Claim::Item(i) => ClaimModel::Item(i@),
            Claim::Wait => ClaimModel::Wait,
            Claim::Done => ClaimModel::Done,
        }
    }
}

/// A lease to renew: the shard and the counter it is held with.
#[derive(Clone, Debug)]
pub struct Renewal {
    pub shard: String,
    pub counter: u64,
}

/// A renewal that succeeded: the new counter, and when.
#[derive(Clone, Copy, Debug, PartialEq, Eq, Structural)]
pub struct Renewed {
    pub counter: u64,
    pub at_ns: u64,
}

/// The queue of one cycle, the shards whose leases are being renewed, the slots
/// that work, and what came of the finished passes.
pub struct Pool {
    queue: VecDeque<PoolItem>,
    renewing: Vec<PoolItem>,
    slots: Vec<Option<String>>,
    outcomes: Vec<(String, PassOutcome)>,
}

/// The state of a pool.
pub struct PoolModel {
    pub queue: Seq<ItemModel>,
    pub renewing: Seq<ItemModel>,
    /// The shard that each slot works on.
    pub slots: Seq<Option<Seq<char>>>,
    pub outcomes: Seq<(Seq<char>, PassOutcome)>,
}

/// The shards that slots work on.
pub open spec fn slot_models(s: Seq<Option<String>>) -> Seq<Option<Seq<char>>> {
    s.map_values(|x: Option<String>| collections::optional_text(x))
}

impl View for Pool {
    type V = PoolModel;

    closed spec fn view(&self) -> PoolModel {
        PoolModel {
            queue: item_models(self.queue@),
            renewing: item_models(self.renewing@),
            slots: slot_models(self.slots@),
            outcomes: outcome_models(self.outcomes@),
        }
    }
}

/// The items that a renewal brings back, with their new counters.
pub open spec fn survivors(items: Seq<ItemModel>, results: Seq<Option<Renewed>>) -> Seq<ItemModel>
    decreases items.len(),
{
    if items.len() == 0 {
        Seq::empty()
    } else {
        let rest = survivors(items.drop_last(), results);
        let k = items.len() - 1;
        if k < results.len() && results[k] is Some {
            rest.push(
                ItemModel {
                    counter: (results[k]->0).counter,
                    last_renewed: (results[k]->0).at_ns,
                    ..items[k]
                },
            )
        } else {
            rest
        }
    }
}

/// What a free slot gets, and the pool afterwards.
pub open spec fn claimed(p: PoolModel, slot: int) -> (PoolModel, ClaimModel) {
    if p.queue.len() > 0 {
        (
            PoolModel {
                queue: p.queue.drop_first(),
                slots: p.slots.update(slot, Some(p.queue[0].shard)),
                ..p
            },
            ClaimModel::Item(p.queue[0]),
        )
    } else if p.renewing.len() > 0 {
        (p, ClaimModel::Wait)
    } else {
        (p, ClaimModel::Done)
    }
}

/// The pool after a slot finished.
pub open spec fn finished(p: PoolModel, slot: int, outcome: PassOutcome) -> PoolModel {
    PoolModel {
        slots: p.slots.update(slot, None),
        outcomes: p.outcomes.push((p.slots[slot]->0, outcome)),
        ..p
    }
}

/// The pool after the stale items were set aside for renewal.
pub open spec fn set_aside(p: PoolModel, now: u64, lease_duration_ms: u64) -> PoolModel {
    PoolModel {
        queue: p.queue.filter(|i: ItemModel| !is_stale(i, now, lease_duration_ms)),
        renewing: p.renewing + p.queue.filter(|i: ItemModel| is_stale(i, now, lease_duration_ms)),
        ..p
    }
}

/// The pool after a renewal: items whose lease was renewed are queued again,
/// the others are dropped.
pub open spec fn brought_back(p: PoolModel, results: Seq<Option<Renewed>>) -> PoolModel {
    PoolModel {
        queue: p.queue + survivors(p.renewing, results),
        renewing: Seq::empty(),
        ..p
    }
}

/// The renewals that some items ask for.
pub open spec fn renewals_of(items: Seq<ItemModel>) -> Seq<(Seq<char>, u64)> {
    items.map_values(|i: ItemModel| (i.shard, i.counter))
}

/// Renewals, with text in place of strings.
pub open spec fn renewal_models(s: Seq<Renewal>) -> Seq<(Seq<char>, u64)> {
    s.map_values(|r: Renewal| (r.shard@, r.counter))
}

impl Pool {
    /// A pool of `k` slots (one at least) over the shards that are due.
    pub fn new(due: Vec<PoolItem>, k: usize) -> (p: Pool)
        ensures
            p@.queue == item_models(due@),
            p@.renewing == Seq::<ItemModel>::empty(),
            p@.slots.len() == (if k >= 1 {
                k as int
            } else {
                1
            }),
            forall|i: int| 0 <= i < p@.slots.len() ==> (#[trigger] p@.slots[i]) is None,
            p@.outcomes == Seq::<(Seq<char>, PassOutcome)>::empty(),
    {
        let mut due = due;
        let ghost all = due@;
        let mut queue: VecDeque<PoolItem> = VecDeque::new();
        let mut reversed: Vec<PoolItem> = Vec::new();
        // move the items over in order: reverse, then take from the end
        while due.len() > 0
            invariant
                due@ + reversed@.reverse() == all,
            decreases due.len(),
        {
            let ghost (d, r) = (due@, reversed@);
            if let Some(item) = due.pop() {
                reversed.push(item);
                assert(reversed@.reverse() =~= seq![item] + r.reverse());
                assert(due@ + reversed@.reverse() =~= d + r.reverse());
            }
        }
        assert(reversed@.reverse() =~= all);
        while reversed.len() > 0
            invariant
                queue@ + reversed@.reverse() == all,
            decreases reversed.len(),
        {
            let ghost (q, r) = (queue@, reversed@);
            if let Some(item) = reversed.pop() {
                queue.push_back(item);
                assert(r.reverse() =~= seq![item] + reversed@.reverse());
                assert(queue@ + reversed@.reverse() =~= q + r.reverse());
            }
        }
        assert(queue@ =~= all);
        let size: usize = if k >= 1 {
            k
        } else {
            1
        };
        let mut slots: Vec<Option<String>> = Vec::new();
        while slots.len() < size
            invariant
                slots.len() <= size,
                forall|i: int| 0 <= i < slots.len() ==> (#[trigger] slots@[i]) is None,
            decreases size - slots.len(),
        {
            slots.push(None);
        }
        let p = Pool { queue, renewing: Vec::new(), slots, outcomes: Vec::new() };
        assert(p@.renewing =~= Seq::empty());
        assert(p@.outcomes =~= Seq::empty());
        p
    }

    /// How many slots there are.
    pub fn size(&self) -> (k: usize)
        ensures
            k == self@.slots.len(),
    {
        self.slots.len()
    }

    /// How many shards are queued.
    pub fn depth(&self) -> (n: usize)
        ensures
            n == self@.queue.len(),
    {
        self.queue.len()
    }

    /// Ask for work, as a slot that has none.
    pub fn claim(&mut self, slot: usize) -> (r: Claim)
        requires
            slot < old(self)@.slots.len(),
            old(self)@.slots[slot as int] is None,
        ensures
            (final(self)@, r@) == claimed(old(self)@, slot as int),
    {
        let ghost before = self@;
        match self.queue.pop_front() {
            Some(item) => {
                self.slots.set(slot, Some(item.shard.clone()));
                assert(self@.queue =~= before.queue.drop_first());
                assert(self@.slots =~= before.slots.update(slot as int, Some(before.queue[0].shard)));
                Claim::Item(item)
            },
            None => {
                assert(self@ == before);
                if self.renewing.len() > 0 {
                    Claim::Wait
                } else {
                    Claim::Done
                }
            },
        }
    }

    /// Report what came of the shard that a slot worked on.
    pub fn finish(&mut self, slot: usize, outcome: PassOutcome)
        requires
            slot < old(self)@.slots.len(),
            old(self)@.slots[slot as int] is Some,
        ensures
            final(self)@ == finished(old(self)@, slot as int, outcome),
    {
        let ghost before = self@;
        if let Some(shard) = clone_optional(&self.slots[slot]) {
            self.slots.set(slot, None);
            self.outcomes.push((shard, outcome));
            assert(self@.slots =~= before.slots.update(slot as int, None));
            assert(self@.outcomes =~= finished(before, slot as int, outcome).outcomes);
        }
    }

    /// Set the items aside whose leases are to be renewed, in queue order.
    pub fn begin_renewal(&mut self, now_ns: u64, lease_duration_ms: u64) -> (r: Vec<Renewal>)
        ensures
            final(self)@ == set_aside(old(self)@, now_ns, lease_duration_ms),
            renewal_models(r@) == renewals_of(
                old(self)@.queue.filter(|i: ItemModel| is_stale(i, now_ns, lease_duration_ms)),
            ),
    {
        let third: u64 = lease_duration_ms / 3;
        let limit: u128 = (if third >= 1 {
            third as u128
        } else {
            1
        }) * 1_000_000;
        let ghost before = self@;
        let ghost q = self@.queue;
        let ghost stale = |i: ItemModel| is_stale(i, now_ns, lease_duration_ms);
        let ghost fresh = |i: ItemModel| !is_stale(i, now_ns, lease_duration_ms);
        let mut keep: VecDeque<PoolItem> = VecDeque::new();
        let mut asked: Vec<Renewal> = Vec::new();
        let ghost mut n: int = 0;
        assert(q.skip(0) =~= q);
        assert(item_models(keep@) =~= q.take(0).filter(fresh)) by {
            reveal(Seq::filter);
        }
        assert(self@.renewing =~= before.renewing + q.take(0).filter(stale)) by {
            reveal(Seq::filter);
        }
        assert(renewal_models(asked@) =~= renewals_of(q.take(0).filter(stale))) by {
            reveal(Seq::filter);
        }
        loop
            invariant
                0 <= n <= q.len(),
                limit == renew_after(lease_duration_ms),
                stale == (|i: ItemModel| is_stale(i, now_ns, lease_duration_ms)),
                fresh == (|i: ItemModel| !is_stale(i, now_ns, lease_duration_ms)),
                q == before.queue,
                self@.queue == q.skip(n),
                item_models(keep@) == q.take(n).filter(fresh),
                self@.renewing == before.renewing + q.take(n).filter(stale),
                self@.slots == before.slots,
                self@.outcomes == before.outcomes,
                renewal_models(asked@) == renewals_of(q.take(n).filter(stale)),
            ensures
                n == q.len(),
            decreases q.len() - n,
        {
            let ghost (k0, r0, a0) = (keep@, self.renewing@, asked@);
            assert(self@.queue.len() == self.queue@.len());
            match self.queue.pop_front() {
                Some(item) => {
                    proof {
                        assert(q.skip(n).len() > 0);
                        assert(item@ == q.skip(n)[0]);
                        assert(q[n] == item@);
                        assert(self@.queue =~= q.skip(n).drop_first());
                        assert(q.skip(n).drop_first() =~= q.skip(n + 1));
                        collections::lemma_filter_step(q, n, stale);
                        collections::lemma_filter_step(q, n, fresh);
                    }
                    let waited: u64 = now_ns.saturating_sub(item.last_renewed);
                    if (waited as u128) >= limit {
                        asked.push(Renewal { shard: item.shard.clone(), counter: item.counter });
                        assert(renewal_models(asked@) =~= renewal_models(a0).push(
                            (item@.shard, item@.counter),
                        ));
                        assert(renewals_of(q.take(n + 1).filter(stale)) =~= renewals_of(
                            q.take(n).filter(stale),
                        ).push((item@.shard, item@.counter)));
                        self.renewing.push(item);
                        assert(item_models(self.renewing@) =~= item_models(r0).push(item@));
                        assert(self@.renewing =~= before.renewing + q.take(n + 1).filter(stale));
                    } else {
                        keep.push_back(item);
                        assert(item_models(keep@) =~= item_models(k0).push(item@));
                    }
                    proof {
                        n = n + 1;
                    }
                },
                None => {
                    assert(q.skip(n).len() == 0);
                    break ;
                },
            }
        }
        self.queue = keep;
        assert(q.take(n) =~= q);
        asked
    }

    /// Queue the items again whose leases were renewed, in the order in which
    /// they were set aside, and drop the others: their leases are lost.
    pub fn finish_renewal(&mut self, results: &Vec<Option<Renewed>>)
        ensures
            final(self)@ == brought_back(old(self)@, results@),
    {
        let ghost before = self@;
        let ghost items = self@.renewing;
        let mut aside: Vec<PoolItem> = Vec::new();
        std::mem::swap(&mut aside, &mut self.renewing);
        let mut i: usize = 0;
        assert(self@.queue =~= before.queue + survivors(items.take(0), results@));
        while i < aside.len()
            invariant
                i <= aside.len(),
                items == item_models(aside@),
                self@.queue == before.queue + survivors(items.take(i as int), results@),
                self@.renewing == Seq::<ItemModel>::empty(),
                self@.slots == before.slots,
                self@.outcomes == before.outcomes,
            decreases aside.len() - i,
        {
            let ghost q0 = self.queue@;
            assert(items.take(i + 1).drop_last() =~= items.take(i as int));
            assert(items.take(i + 1)[i as int] == aside@[i as int]@);
            if i < results.len() {
                if let Some(r) = results[i] {
                    let item = PoolItem {
                        shard: aside[i].shard.clone(),
                        counter: r.counter,
                        checkpoint: clone_optional(&aside[i].checkpoint),
                        enqueued: aside[i].enqueued,
                        last_renewed: r.at_ns,
                    };
                    self.queue.push_back(item);
                    assert(item_models(self.queue@) =~= item_models(q0).push(item@));
                    assert(self@.queue =~= before.queue + survivors(items.take(i + 1), results@));
                }
            }
            i = i + 1;
        }
        assert(items.take(i as int) =~= items);
    }

    /// The outcomes of the finished passes, in the order in which they finished.
    pub fn outcomes(&self) -> (r: &Vec<(String, PassOutcome)>)
        ensures
            outcome_models(r@) == self@.outcomes,
    {
        &self.outcomes
    }
}

/// How many of some items are for `shard`.
pub open spec fn item_count(items: Seq<ItemModel>, shard: Seq<char>) -> nat
    decreases items.len(),
{
    if items.len() == 0 {
        0
    } else {
        item_count(items.drop_last(), shard) + if items.last().shard == shard {
            1nat
        } else {
            0nat
        }
    }
}

/// How many slots work on `shard`.
pub open spec fn slot_count(slots: Seq<Option<Seq<char>>>, shard: Seq<char>) -> nat
    decreases slots.len(),
{
    if slots.len() == 0 {
        0
    } else {
        slot_count(slots.drop_last(), shard) + if slots.last() == Some(shard) {
            1nat
        } else {
            0nat
        }
    }
}

/// In how many places of a pool `shard` is: queued, set aside or worked on.
pub open spec fn places(p: PoolModel, shard: Seq<char>) -> nat {
    item_count(p.queue, shard) + item_count(p.renewing, shard) + slot_count(p.slots, shard)
}

/// Every shard is in one place at most.
pub open spec fn is_exclusive(p: PoolModel) -> bool {
    forall|shard: Seq<char>| #[trigger] places(p, shard) <= 1
}

proof fn lemma_count_concat(a: Seq<ItemModel>, b: Seq<ItemModel>, shard: Seq<char>)
    ensures
        item_count(a + b, shard) == item_count(a, shard) + item_count(b, shard),
    decreases b.len(),
{
    if b.len() == 0 {
        assert(a + b =~= a);
    } else {
        assert((a + b).drop_last() =~= a + b.drop_last());
        lemma_count_concat(a, b.drop_last(), shard);
    }
}

proof fn lemma_count_first(q: Seq<ItemModel>, shard: Seq<char>)
    requires
        q.len() > 0,
    ensures
        item_count(q, shard) == item_count(q.drop_first(), shard) + if q[0].shard == shard {
            1nat
        } else {
            0nat
        },
{
    assert(q =~= seq![q[0]] + q.drop_first());
    lemma_count_concat(seq![q[0]], q.drop_first(), shard);
    reveal_with_fuel(item_count, 2);
    assert(seq![q[0]].drop_last() =~= Seq::empty());
}

proof fn lemma_count_slots(
    slots: Seq<Option<Seq<char>>>,
    i: int,
    x: Option<Seq<char>>,
    shard: Seq<char>,
)
    requires
        0 <= i < slots.len(),
    ensures
        slot_count(slots.update(i, x), shard) + (if slots[i] == Some(shard) {
            1nat
        } else {
            0nat
        }) == slot_count(slots, shard) + (if x == Some(shard) {
            1nat
        } else {
            0nat
        }),
    decreases slots.len(),
{
    let u = slots.update(i, x);
    if i == slots.len() - 1 {
        assert(u.drop_last() =~= slots.drop_last());
    } else {
        assert(u.drop_last() =~= slots.drop_last().update(i, x));
        lemma_count_slots(slots.drop_last(), i, x, shard);
    }
}

proof fn lemma_count_slot_at(slots: Seq<Option<Seq<char>>>, i: int, shard: Seq<char>)
    requires
        0 <= i < slots.len(),
        slots[i] == Some(shard),
    ensures
        slot_count(slots, shard) >= 1,
{
    lemma_count_slots(slots, i, None, shard);
}

proof fn lemma_count_item_at(items: Seq<ItemModel>, i: int)
    requires
        0 <= i < items.len(),
    ensures
        item_count(items, items[i].shard) >= 1,
    decreases items.len(),
{
    if i < items.len() - 1 {
        assert(items.drop_last()[i] == items[i]);
        lemma_count_item_at(items.drop_last(), i);
    }
}

proof fn lemma_count_split(q: Seq<ItemModel>, now: u64, duration: u64, shard: Seq<char>)
    ensures
        item_count(q, shard) == item_count(
            q.filter(|i: ItemModel| !is_stale(i, now, duration)),
            shard,
        ) + item_count(q.filter(|i: ItemModel| is_stale(i, now, duration)), shard),
    decreases q.len(),
{
    reveal(Seq::filter);
    if q.len() > 0 {
        let rest = q.drop_last();
        lemma_count_split(rest, now, duration, shard);
        let stale = |i: ItemModel| is_stale(i, now, duration);
        let fresh = |i: ItemModel| !is_stale(i, now, duration);
        assert(rest.filter(stale).push(q.last()).drop_last() =~= rest.filter(stale));
        assert(rest.filter(fresh).push(q.last()).drop_last() =~= rest.filter(fresh));
    }
}

proof fn lemma_count_survivors(
    items: Seq<ItemModel>,
    results: Seq<Option<Renewed>>,
    shard: Seq<char>,
)
    ensures
        item_count(survivors(items, results), shard) <= item_count(items, shard),
    decreases items.len(),
{
    if items.len() > 0 {
        let rest = survivors(items.drop_last(), results);
        lemma_count_survivors(items.drop_last(), results, shard);
        let k = items.len() - 1;
        if k < results.len() && results[k] is Some {
            let all = survivors(items, results);
            assert(all.drop_last() =~= rest);
        }
    }
}

/// A pool over distinct shards starts with every shard in one place.
pub proof fn law_a_fresh_pool_is_exclusive(p: PoolModel)
    requires
        p.renewing.len() == 0,
        forall|i: int| 0 <= i < p.slots.len() ==> (#[trigger] p.slots[i]) is None,
        forall|i: int, j: int|
            0 <= i < j < p.queue.len() ==> (#[trigger] p.queue[i]).shard != (
            #[trigger] p.queue[j]).shard,
    ensures
        is_exclusive(p),
{
    assert forall|shard: Seq<char>| #[trigger] places(p, shard) <= 1 by {
        lemma_no_slots(p.slots, shard);
        lemma_distinct_items(p.queue, shard);
    }
}

proof fn lemma_no_slots(slots: Seq<Option<Seq<char>>>, shard: Seq<char>)
    requires
        forall|i: int| 0 <= i < slots.len() ==> (#[trigger] slots[i]) is None,
    ensures
        slot_count(slots, shard) == 0,
    decreases slots.len(),
{
    if slots.len() > 0 {
        assert(slots[slots.len() - 1] is None);
        assert forall|i: int| 0 <= i < slots.drop_last().len() implies (
        #[trigger] slots.drop_last()[i]) is None by {
            assert(slots[i] is None);
        }
        lemma_no_slots(slots.drop_last(), shard);
    }
}

proof fn lemma_distinct_items(q: Seq<ItemModel>, shard: Seq<char>)
    requires
        forall|i: int, j: int|
            0 <= i < j < q.len() ==> (#[trigger] q[i]).shard != (#[trigger] q[j]).shard,
    ensures
        item_count(q, shard) <= 1,
    decreases q.len(),
{
    if q.len() > 0 {
        let rest = q.drop_last();
        assert forall|i: int, j: int| 0 <= i < j < rest.len() implies (#[trigger] rest[i]).shard
            != (#[trigger] rest[j]).shard by {
            assert(q[i].shard != q[j].shard);
        }
        lemma_distinct_items(rest, shard);
        if q.last().shard == shard && item_count(rest, shard) > 0 {
            lemma_count_positive(rest, shard);
            let i = choose|i: int| 0 <= i < rest.len() && (#[trigger] rest[i]).shard == shard;
            assert(q[i].shard != q[q.len() - 1].shard);
        }
    }
}

proof fn lemma_count_positive(q: Seq<ItemModel>, shard: Seq<char>)
    requires
        item_count(q, shard) > 0,
    ensures
        exists|i: int| 0 <= i < q.len() && (#[trigger] q[i]).shard == shard,
    decreases q.len(),
{
    if q.last().shard == shard {
        assert(q[q.len() - 1].shard == shard);
    } else {
        lemma_count_positive(q.drop_last(), shard);
        let i = choose|i: int|
            0 <= i < q.drop_last().len() && (#[trigger] q.drop_last()[i]).shard == shard;
        assert(q[i].shard == shard);
    }
}

/// A shard that a slot claims is not worked on by any other slot, and it is
/// neither queued nor being renewed any more; the number of slots never changes.
pub proof fn law_a_shard_is_claimed_once(p: PoolModel, slot: int)
    requires
        is_exclusive(p),
        0 <= slot < p.slots.len(),
        p.slots[slot] is None,
    ensures
        ({
            let (q, c) = claimed(p, slot);
            &&& is_exclusive(q)
            &&& q.slots.len() == p.slots.len()
            &&& c matches ClaimModel::Item(item) ==> {
                &&& forall|j: int|
                    0 <= j < q.slots.len() && j != slot ==> #[trigger] q.slots[j] != Some(
                        item.shard,
                    )
                &&& forall|j: int|
                    0 <= j < q.queue.len() ==> (#[trigger] q.queue[j]).shard != item.shard
                &&& forall|j: int|
                    0 <= j < q.renewing.len() ==> (#[trigger] q.renewing[j]).shard != item.shard
            }
        }),
{
    let (q, c) = claimed(p, slot);
    assert forall|shard: Seq<char>| #[trigger] places(q, shard) <= 1 by {
        assert(places(p, shard) <= 1);
        if p.queue.len() > 0 {
            lemma_count_first(p.queue, shard);
            lemma_count_slots(p.slots, slot, Some(p.queue[0].shard), shard);
        }
    }
    if let ClaimModel::Item(item) = c {
        assert(places(q, item.shard) <= 1);
        lemma_count_slot_at(q.slots, slot, item.shard);
        assert forall|j: int| 0 <= j < q.slots.len() && j != slot implies #[trigger] q.slots[j]
            != Some(item.shard) by {
            if q.slots[j] == Some(item.shard) {
                lemma_count_slots(q.slots, slot, None, item.shard);
                lemma_count_slot_at(q.slots.update(slot, None), j, item.shard);
            }
        }
        assert forall|j: int| 0 <= j < q.queue.len() implies (#[trigger] q.queue[j]).shard
            != item.shard by {
            lemma_count_item_at(q.queue, j);
        }
        assert forall|j: int| 0 <= j < q.renewing.len() implies (#[trigger] q.renewing[j]).shard
            != item.shard by {
            lemma_count_item_at(q.renewing, j);
        }
    }
}

/// Finishing a pass and renewing leases keep every shard in one place at most,
/// and leave the number of slots alone.
pub proof fn law_a_pool_stays_exclusive(
    p: PoolModel,
    slot: int,
    outcome: PassOutcome,
    now: u64,
    duration: u64,
    results: Seq<Option<Renewed>>,
)
    requires
        is_exclusive(p),
        0 <= slot < p.slots.len(),
    ensures
        is_exclusive(finished(p, slot, outcome)),
        is_exclusive(set_aside(p, now, duration)),
        is_exclusive(brought_back(p, results)),
        finished(p, slot, outcome).slots.len() == p.slots.len(),
        set_aside(p, now, duration).slots == p.slots,
        brought_back(p, results).slots == p.slots,
{
    assert forall|shard: Seq<char>| #[trigger] places(finished(p, slot, outcome), shard) <= 1 by {
        assert(places(p, shard) <= 1);
        lemma_count_slots(p.slots, slot, None, shard);
    }
    assert forall|shard: Seq<char>| #[trigger] places(set_aside(p, now, duration), shard) <= 1 by {
        assert(places(p, shard) <= 1);
        lemma_count_split(p.queue, now, duration, shard);
        lemma_count_concat(
            p.renewing,
            p.queue.filter(|i: ItemModel| is_stale(i, now, duration)),
            shard,
        );
    }
    assert forall|shard: Seq<char>| #[trigger] places(brought_back(p, results), shard) <= 1 by {
        assert(places(p, shard) <= 1);
        lemma_count_survivors(p.renewing, results, shard);
        lemma_count_concat(p.queue, survivors(p.renewing, results), shard);
    }
}

/// A slot is told that there is nothing left only when nothing is queued and
/// nothing is being renewed.
pub proof fn law_slots_do_not_leave_early(p: PoolModel, slot: int)
    requires
        claimed(p, slot).1 is Done,
    ensures
        p.queue.len() == 0,
        p.renewing.len() == 0,
{
}

/// How many finished passes were over `shard`.
pub open spec fn outcome_count(outcomes: Seq<(Seq<char>, PassOutcome)>, shard: Seq<char>) -> nat
    decreases outcomes.len(),
{
    if outcomes.len() == 0 {
        0
    } else {
        outcome_count(outcomes.drop_last(), shard) + if outcomes.last().0 == shard {
            1nat
        } else {
            0nat
        }
    }
}

/// How many passes over `shard` a pool has finished, works on or has ahead.
pub open spec fn accounted(p: PoolModel, shard: Seq<char>) -> nat {
    places(p, shard) + outcome_count(p.outcomes, shard)
}

/// The lease of `shard` was renewed wherever that was asked for.
pub open spec fn keeps_lease(
    items: Seq<ItemModel>,
    results: Seq<Option<Renewed>>,
    shard: Seq<char>,
) -> bool {
    forall|k: int|
        0 <= k < items.len() && (#[trigger] items[k]).shard == shard ==> k < results.len()
            && results[k] is Some
}

proof fn lemma_count_kept(
    items: Seq<ItemModel>,
    results: Seq<Option<Renewed>>,
    shard: Seq<char>,
)
    requires
        keeps_lease(items, results, shard),
    ensures
        item_count(survivors(items, results), shard) == item_count(items, shard),
    decreases items.len(),
{
    if items.len() > 0 {
        let rest = survivors(items.drop_last(), results);
        assert forall|k: int|
            0 <= k < items.drop_last().len() && (#[trigger] items.drop_last()[k]).shard
                == shard implies k < results.len() && results[k] is Some by {
            assert(items[k].shard == shard);
        }
        lemma_count_kept(items.drop_last(), results, shard);
        let k = items.len() - 1;
        assert(items[k] == items.last());
        if k < results.len() && results[k] is Some {
            let all = survivors(items, results);
            assert(all.drop_last() =~= rest);
        }
    }
}

/// No pass that is due is skipped: whatever a pool does, a pass stays ahead, is
/// worked on or was finished, unless the lease of its shard is lost meanwhile.
pub proof fn law_no_due_shard_is_skipped(
    p: PoolModel,
    slot: int,
    outcome: PassOutcome,
    now: u64,
    duration: u64,
    results: Seq<Option<Renewed>>,
    shard: Seq<char>,
)
    requires
        0 <= slot < p.slots.len(),
    ensures
        p.slots[slot] is None ==> accounted(claimed(p, slot).0, shard) == accounted(p, shard),
        p.slots[slot] is Some ==> accounted(finished(p, slot, outcome), shard) == accounted(
            p,
            shard,
        ),
        accounted(set_aside(p, now, duration), shard) == accounted(p, shard),
        accounted(brought_back(p, results), shard) <= accounted(p, shard),
        keeps_lease(p.renewing, results, shard) ==> accounted(brought_back(p, results), shard)
            == accounted(p, shard),
{
    if p.slots[slot] is None && p.queue.len() > 0 {
        lemma_count_first(p.queue, shard);
        lemma_count_slots(p.slots, slot, Some(p.queue[0].shard), shard);
    }
    if p.slots[slot] is Some {
        lemma_count_slots(p.slots, slot, None, shard);
        assert(finished(p, slot, outcome).outcomes.drop_last() =~= p.outcomes);
    }
    lemma_count_split(p.queue, now, duration, shard);
    lemma_count_concat(
        p.renewing,
        p.queue.filter(|i: ItemModel| is_stale(i, now, duration)),
        shard,
    );
    lemma_count_survivors(p.renewing, results, shard);
    lemma_count_concat(p.queue, survivors(p.renewing, results), shard);
    if keeps_lease(p.renewing, results, shard) {
        lemma_count_kept(p.renewing, results, shard);
    }
}

/// When every slot has left, all that was accounted for is finished.
pub proof fn law_an_idle_pool_is_finished(p: PoolModel, slot: int, shard: Seq<char>)
    requires
        forall|i: int| 0 <= i < p.slots.len() ==> (#[trigger] p.slots[i]) is None,
        claimed(p, slot).1 is Done,
    ensures
        outcome_count(p.outcomes, shard) == accounted(p, shard),
{
    lemma_no_slots(p.slots, shard);
}

/// How many slots work.
pub open spec fn busy(slots: Seq<Option<Seq<char>>>) -> nat
    decreases slots.len(),
{
    if slots.len() == 0 {
        0
    } else {
        busy(slots.drop_last()) + if slots.last() is Some {
            1nat
        } else {
            0nat
        }
    }
}

proof fn lemma_busy_update(slots: Seq<Option<Seq<char>>>, i: int, x: Option<Seq<char>>)
    requires
        0 <= i < slots.len(),
    ensures
        busy(slots.update(i, x)) + (if slots[i] is Some {
            1nat
        } else {
            0nat
        }) == busy(slots) + (if x is Some {
            1nat
        } else {
            0nat
        }),
    decreases slots.len(),
{
    let u = slots.update(i, x);
    if i == slots.len() - 1 {
        assert(u.drop_last() =~= slots.drop_last());
    } else {
        assert(u.drop_last() =~= slots.drop_last().update(i, x));
        lemma_busy_update(slots.drop_last(), i, x);
    }
}

proof fn lemma_busy_bound(slots: Seq<Option<Seq<char>>>)
    ensures
        busy(slots) <= slots.len(),
    decreases slots.len(),
{
    if slots.len() > 0 {
        lemma_busy_bound(slots.drop_last());
    }
}

proof fn lemma_filter_lens(q: Seq<ItemModel>, now: u64, duration: u64)
    ensures
        q.len() == q.filter(|i: ItemModel| !is_stale(i, now, duration)).len() + q.filter(
            |i: ItemModel| is_stale(i, now, duration),
        ).len(),
    decreases q.len(),
{
    reveal(Seq::filter);
    if q.len() > 0 {
        lemma_filter_lens(q.drop_last(), now, duration);
    }
}

proof fn lemma_survivors_len(items: Seq<ItemModel>, results: Seq<Option<Renewed>>)
    ensures
        survivors(items, results).len() <= items.len(),
    decreases items.len(),
{
    if items.len() > 0 {
        lemma_survivors_len(items.drop_last(), results);
    }
}

/// A pool works on as many shards at a time as it has slots, at most, and it
/// never gets more slots.
pub proof fn law_concurrency_is_bounded(
    p: PoolModel,
    slot: int,
    outcome: PassOutcome,
    now: u64,
    duration: u64,
    results: Seq<Option<Renewed>>,
)
    requires
        0 <= slot < p.slots.len(),
    ensures
        busy(p.slots) <= p.slots.len(),
        busy(claimed(p, slot).0.slots) <= p.slots.len(),
        busy(finished(p, slot, outcome).slots) <= p.slots.len(),
        busy(set_aside(p, now, duration).slots) <= p.slots.len(),
        busy(brought_back(p, results).slots) <= p.slots.len(),
{
    lemma_busy_bound(p.slots);
    lemma_busy_bound(claimed(p, slot).0.slots);
    lemma_busy_bound(finished(p, slot, outcome).slots);
}

/// How much a pool has to do: two steps for each waiting pass, one for each that
/// is under way.
pub open spec fn work_left(p: PoolModel) -> nat {
    2 * (p.queue.len() + p.renewing.len()) + busy(p.slots)
}

/// A pool comes to an end: every claim and every finished pass takes it closer
/// to it, and renewals do not take it further away.
pub proof fn law_a_pool_drains(
    p: PoolModel,
    slot: int,
    outcome: PassOutcome,
    now: u64,
    duration: u64,
    results: Seq<Option<Renewed>>,
)
    requires
        0 <= slot < p.slots.len(),
    ensures
        p.slots[slot] is None && claimed(p, slot).1 is Item ==> work_left(claimed(p, slot).0)
            < work_left(p),
        p.slots[slot] is Some ==> work_left(finished(p, slot, outcome)) < work_left(p),
        work_left(set_aside(p, now, duration)) == work_left(p),
        work_left(brought_back(p, results)) <= work_left(p),
        work_left(p) == 0 ==> claimed(p, slot).1 is Done,
{
    if p.queue.len() > 0 {
        lemma_busy_update(p.slots, slot, Some(p.queue[0].shard));
    }
    lemma_busy_update(p.slots, slot, None);
    lemma_filter_lens(p.queue, now, duration);
    lemma_survivors_len(p.renewing, results);
}

/// Every owned shard that is new, or whose time has come, is queued, in order,
/// with its counter and its checkpoint, as renewed and queued now; and no other.
pub proof fn law_every_due_shard_is_queued(
    m: Map<Seq<char>, ShardSched>,
    owned: Seq<OwnedShard>,
    now: u64,
    i: int,
)
    ensures
        ({
            let is_due = |o: OwnedShard|
                !m.contains_key(o.shard@) || m[o.shard@].due_at <= now as u128;
            let due = due_items(m, owned_models(owned), now);
            let at = collections::matching_before(owned, is_due, i) as int;
            &&& due.len() == collections::matching_before(owned, is_due, owned.len() as int)
            &&& 0 <= i < owned.len() && is_due(owned[i]) ==> {
                &&& at < due.len()
                &&& due[at].shard == owned[i].shard@
                &&& due[at].counter == owned[i].counter
                &&& due[at].checkpoint is Some == owned[i].checkpoint is Some
                &&& owned[i].checkpoint is Some ==> due[at].checkpoint->0 == owned[i].checkpoint->0@
                &&& due[at].enqueued == now
                &&& due[at].last_renewed == now
            }
        }),
{
    let is_due = |o: OwnedShard| !m.contains_key(o.shard@) || m[o.shard@].due_at <= now as u128;
    let t = owned_models(owned);
    let keep = |o: OwnedModel| refreshed(m, t, now)[o.shard].due_at <= now;
    assert forall|k: int|
        #![trigger t[k]]
        #![trigger owned[k]]
        0 <= k < t.len() implies keep(t[k]) == is_due(owned[k]) by {
        assert(t[k] == owned[k]@);
        law_refresh_keeps_owned_shards(m, t, now, t[k].shard);
    }
    collections::lemma_filter_places(t, keep, owned, is_due, i);
    if 0 <= i < owned.len() {
        assert(t[i] == owned[i]@);
    }
}

proof fn lemma_outcomes_of_others(
    m: Map<Seq<char>, ShardSched>,
    outcomes: Seq<(Seq<char>, PassOutcome)>,
    now: u64,
    poll: u64,
    shard: Seq<char>,
)
    requires
        forall|k: int| 0 <= k < outcomes.len() ==> (#[trigger] outcomes[k]).0 != shard,
    ensures
        after_outcomes(m, outcomes, now, poll).contains_key(shard) == m.contains_key(shard),
        m.contains_key(shard) ==> after_outcomes(m, outcomes, now, poll)[shard] == m[shard],
    decreases outcomes.len(),
{
    if outcomes.len() > 0 {
        assert(outcomes[outcomes.len() - 1].0 != shard);
        lemma_outcomes_of_others(m, outcomes.drop_last(), now, poll, shard);
    }
}

proof fn lemma_outcome_of(
    m: Map<Seq<char>, ShardSched>,
    outcomes: Seq<(Seq<char>, PassOutcome)>,
    now: u64,
    poll: u64,
    i: int,
)
    requires
        0 <= i < outcomes.len(),
        forall|k: int|
            0 <= k < outcomes.len() && k != i ==> (#[trigger] outcomes[k]).0 != outcomes[i].0,
    ensures
        ({
            let (shard, outcome) = outcomes[i];
            let one = after_outcome(m, shard, outcome, now, poll);
            let all = after_outcomes(m, outcomes, now, poll);
            &&& all.contains_key(shard) == one.contains_key(shard)
            &&& one.contains_key(shard) ==> all[shard] == one[shard]
        }),
    decreases outcomes.len(),
{
    let rest = outcomes.drop_last();
    let n = outcomes.len() - 1;
    assert forall|k: int| 0 <= k < rest.len() && k != i implies (#[trigger] rest[k]).0
        != outcomes[i].0 by {
        assert(outcomes[k].0 != outcomes[i].0);
    }
    if i == n {
        lemma_outcomes_of_others(m, rest, now, poll, outcomes[i].0);
    } else {
        assert(rest[i] == outcomes[i]);
        lemma_outcome_of(m, rest, now, poll, i);
        assert(outcomes[n].0 != outcomes[i].0);
    }
}

/// What a pass over a shard does to its schedule. One that ended or stopped
/// leaves it; an active one is due at once; an idle one is due after the poll
/// interval, or after twice as long as it waited before, and after five seconds
/// at the latest. A shard without a pass keeps its place.
pub proof fn law_outcomes_reschedule_their_shards(
    m: Map<Seq<char>, ShardSched>,
    outcomes: Seq<(String, PassOutcome)>,
    now: u64,
    poll: u64,
    i: int,
    other: Seq<char>,
)
    requires
        0 <= i < outcomes.len(),
        forall|k: int|
            0 <= k < outcomes.len() && k != i ==> (#[trigger] outcomes[k]).0@ != outcomes[i].0@,
        forall|k: int| 0 <= k < outcomes.len() ==> (#[trigger] outcomes[k]).0@ != other,
    ensures
        ({
            let all = after_outcomes(m, outcome_models(outcomes), now, poll);
            let shard = outcomes[i].0@;
            let outcome = outcomes[i].1;
            let before = m[shard].backoff_ms;
            let wanted: int = if before > 0 {
                2 * before
            } else if poll == 0 {
                1
            } else {
                poll as int
            };
            let wait: int = if wanted <= 5000 {
                wanted
            } else {
                5000
            };
            &&& outcome is Ended || outcome is Stopped || !m.contains_key(shard)
                ==> !all.contains_key(shard)
            &&& outcome is Active && m.contains_key(shard) ==> all.contains_key(shard)
                && all[shard].backoff_ms == 0 && all[shard].due_at == now
            &&& outcome is Idle && m.contains_key(shard) ==> all.contains_key(shard)
                && all[shard].backoff_ms == wait && all[shard].due_at == now + wait * 1_000_000
            &&& all.contains_key(other) == m.contains_key(other)
            &&& m.contains_key(other) ==> all[other] == m[other]
        }),
{
    let t = outcome_models(outcomes);
    assert forall|k: int| 0 <= k < t.len() implies (#[trigger] t[k]).0 == outcomes[k].0@ && t[k].1
        == outcomes[k].1 by {}
    assert(t[i].0 == outcomes[i].0@);
    lemma_outcome_of(m, t, now, poll, i);
    lemma_outcomes_of_others(m, t, now, poll, other);
}

/// A worker without a due shard sleeps until the next one is due: not longer,
/// and shorter only where the poll interval, of a millisecond at least, is.
pub proof fn law_sleeps_until_a_shard_is_due(next_due: u128, now: u64, poll: u64)
    ensures
        ({
            let sleep = idle_sleep(next_due, now, poll);
            &&& next_due <= now ==> sleep == 0
            &&& next_due > now ==> now + sleep <= next_due
            &&& sleep <= poll * 1_000_000 || sleep <= 1_000_000
            &&& next_due > now && now + sleep < next_due ==> sleep >= poll * 1_000_000 && sleep
                >= 1_000_000
        }),
{
}

/// A waiting shard is renewed once a third of the lease duration has passed
/// since the last renewal, and is looked at twice as often, but at least once a
/// second; both are a millisecond at least.
pub proof fn law_leases_are_renewed_in_thirds(i: ItemModel, now: u64, duration: u64)
    requires
        i.last_renewed <= now,
    ensures
        is_stale(i, now, duration) <==> {
            &&& now - i.last_renewed >= 1_000_000
            &&& now - i.last_renewed >= (duration / 3) * 1_000_000
        },
        ({
            let tick = keep_alive_tick(duration);
            &&& 1 <= tick <= 1000
            &&& duration >= 6000 ==> tick == 1000
            &&& 6 <= duration < 6000 ==> 6 * tick <= duration < 6 * tick + 6
            &&& duration < 6 ==> tick == 1
        }),
{
}

/// A free slot gets the shard that waits longest. If none waits, it stays as
/// long as one is being renewed. A slot that is done gives way, and what came of
/// its shard is noted.
pub proof fn law_slots_work_in_order(p: PoolModel, slot: int, outcome: PassOutcome)
    requires
        0 <= slot < p.slots.len(),
    ensures
        ({
            let (q, c) = claimed(p, slot);
            &&& p.queue.len() > 0 ==> c == ClaimModel::Item(p.queue[0]) && q.queue == p.queue.skip(1)
                && q.slots[slot] == Some(p.queue[0].shard)
            &&& p.queue.len() == 0 && p.renewing.len() > 0 ==> c is Wait && q == p
            &&& p.queue.len() == 0 && p.renewing.len() == 0 ==> c is Done && q == p
            &&& q.renewing == p.renewing && q.outcomes == p.outcomes
            &&& forall|k: int|
                0 <= k < p.slots.len() && k != slot ==> #[trigger] q.slots[k] == p.slots[k]
        }),
        p.slots[slot] is Some ==> ({
            let q = finished(p, slot, outcome);
            &&& q.slots[slot] is None
            &&& q.outcomes.len() == p.outcomes.len() + 1
            &&& q.outcomes.last() == (p.slots[slot]->0, outcome)
            &&& q.queue == p.queue && q.renewing == p.renewing
            &&& forall|k: int|
                0 <= k < p.slots.len() && k != slot ==> #[trigger] q.slots[k] == p.slots[k]
            &&& forall|k: int|
                0 <= k < p.outcomes.len() ==> #[trigger] q.outcomes[k] == p.outcomes[k]
        }),
{
    if p.queue.len() > 0 {
        assert(p.queue.drop_first() =~= p.queue.skip(1));
    }
}

/// For a renewal, every stale shard leaves the queue, in order, and no other; each
/// that was renewed comes back at the end of the queue, with the new counter and
/// time, and the others do not.
pub proof fn law_renewals_go_aside_and_come_back(
    p: PoolModel,
    now: u64,
    duration: u64,
    results: Seq<Option<Renewed>>,
    i: int,
)
    requires
        0 <= i < p.queue.len(),
    ensures
        ({
            let stale = |x: ItemModel| is_stale(x, now, duration);
            let fresh = |x: ItemModel| !is_stale(x, now, duration);
            let q = set_aside(p, now, duration);
            let n = p.queue.len() as int;
            let back = collections::matching_before(p.queue, stale, i);
            let front = collections::matching_before(p.queue, fresh, i);
            &&& q.queue.len() == collections::matching_before(p.queue, fresh, n)
            &&& q.renewing.len() == p.renewing.len() + collections::matching_before(p.queue, stale, n)
            &&& stale(p.queue[i]) ==> q.renewing[(p.renewing.len() + back) as int] == p.queue[i]
            &&& fresh(p.queue[i]) ==> q.queue[front as int] == p.queue[i]
            &&& q.slots == p.slots && q.outcomes == p.outcomes
        }),
        ({
            let q = brought_back(p, results);
            &&& q.renewing.len() == 0
            &&& q.queue.take(p.queue.len() as int) == p.queue
            &&& q.slots == p.slots && q.outcomes == p.outcomes
        }),
{
    let stale = |x: ItemModel| is_stale(x, now, duration);
    let fresh = |x: ItemModel| !is_stale(x, now, duration);
    collections::lemma_filter_places(p.queue, stale, p.queue, stale, i);
    collections::lemma_filter_places(p.queue, fresh, p.queue, fresh, i);
    assert(brought_back(p, results).queue.take(p.queue.len() as int) =~= p.queue);
}

/// Of the shards of a renewal, each that was renewed survives, in order, as it
/// was but for the new counter and the time of the renewal; no other does.
pub proof fn law_the_renewed_survive(items: Seq<ItemModel>, results: Seq<Option<Renewed>>, i: int)
    requires
        items.len() == results.len(),
    ensures
        ({
            let is_renewed = |r: Option<Renewed>| r is Some;
            let out = survivors(items, results);
            let at = collections::matching_before(results, is_renewed, i) as int;
            &&& out.len() == collections::matching_before(results, is_renewed, items.len() as int)
            &&& 0 <= i < items.len() && results[i] is Some ==> {
                &&& at < out.len()
                &&& out[at].shard == items[i].shard
                &&& out[at].checkpoint == items[i].checkpoint
                &&& out[at].enqueued == items[i].enqueued
                &&& out[at].counter == (results[i]->0).counter
                &&& out[at].last_renewed == (results[i]->0).at_ns
            }
        }),
{
    lemma_renewed_survive(items, results, items.len() as int, i);
    assert(items.take(items.len() as int) =~= items);
}

proof fn lemma_renewed_survive(
    items: Seq<ItemModel>,
    results: Seq<Option<Renewed>>,
    n: int,
    i: int,
)
    requires
        0 <= n <= items.len() == results.len(),
    ensures
        ({
            let is_renewed = |r: Option<Renewed>| r is Some;
            let out = survivors(items.take(n), results);
            let at = collections::matching_before(results, is_renewed, i) as int;
            &&& out.len() == collections::matching_before(results, is_renewed, n)
            &&& 0 <= i < n && results[i] is Some ==> {
                &&& at < out.len()
                &&& out[at] == (ItemModel {
                    counter: (results[i]->0).counter,
                    last_renewed: (results[i]->0).at_ns,
                    ..items[i]
                })
            }
        }),
    decreases n,
{
    if n > 0 {
        lemma_renewed_survive(items, results, n - 1, i);
        assert(items.take(n).drop_last() =~= items.take(n - 1));
    }
}

/// Queued passes, renewals and outcomes are what they stand for, in order; a
/// renewal is of the shard and the counter that an item has.
pub proof fn law_items_and_renewals_are_as_they_stand(
    items: Seq<PoolItem>,
    renewals: Seq<Renewal>,
    owned: Seq<OwnedShard>,
    i: int,
)
    ensures
        item_models(items).len() == items.len(),
        renewal_models(renewals).len() == renewals.len(),
        owned_models(owned).len() == owned.len(),
        renewals_of(item_models(items)).len() == items.len(),
        0 <= i < items.len() ==> ({
            let m = item_models(items)[i];
            &&& m.shard == items[i].shard@
            &&& m.counter == items[i].counter
            &&& m.checkpoint == (match items[i].checkpoint {
                Some(c) => Some(c@),
                None => None,
            })
            &&& m.enqueued == items[i].enqueued
            &&& m.last_renewed == items[i].last_renewed
            &&& renewals_of(item_models(items))[i] == (items[i].shard@, items[i].counter)
        }),
        0 <= i < renewals.len() ==> renewal_models(renewals)[i] == (
            renewals[i].shard@,
            renewals[i].counter,
        ),
        0 <= i < owned.len() ==> ({
            let m = owned_models(owned)[i];
            &&& m.shard == owned[i].shard@
            &&& m.counter == owned[i].counter
            &&& m.checkpoint == (match owned[i].checkpoint {
                Some(c) => Some(c@),
                None => None,
            })
        }),
{
}

/// What a slot gets is what it stands for; so are the slots and the outcomes.
pub proof fn law_claims_are_as_they_stand(
    c: Claim,
    slots: Seq<Option<String>>,
    outcomes: Seq<(String, PassOutcome)>,
    i: int,
)
    ensures
        match c {
            Claim::Item(x) => c@ == ClaimModel::Item(x@),
            Claim::Wait => c@ is Wait,
            Claim::Done => c@ is Done,
        },
        slot_models(slots).len() == slots.len(),
        0 <= i < slots.len() ==> slot_models(slots)[i] == (match slots[i] {
            Some(s) => Some(s@),
            None => None,
        }),
        outcome_models(outcomes).len() == outcomes.len(),
        0 <= i < outcomes.len() ==> outcome_models(outcomes)[i] == (outcomes[i].0@, outcomes[i].1),
{
}

} // verus!
