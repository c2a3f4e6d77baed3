//! Deferred checkpoints: acknowledged progress is held in memory and persisted
//! at most once per interval and shard.
//!
//! A pending acknowledgement is where the next pass resumes, so that deferral
//! causes no redelivery while the worker lives. After a crash the shard resumes
//! from the last persisted checkpoint: records are redelivered, never lost.

use vstd::prelude::*;

use crate::collections::{clone_optional, StringMap, StringSet};
use crate::collections;

verus! {

/// The deferred state of one shard.
pub struct PendingCkpt {
    /// The highest acknowledged sequence number that is not persisted yet.
    ack: Option<String>,
    /// When the checkpoint was last persisted, in nanoseconds.
    last_persist: u64,
}

/// The deferred state of one shard, with the acknowledgement as text.
pub struct Pending {
    pub ack: Option<Seq<char>>,
    pub last_persist: u64,
}

impl View for PendingCkpt {
    type V = Pending;

    closed spec fn view(&self) -> Pending {
        Pending { ack: collections::optional_text(self.ack), last_persist: self.last_persist }
    }
}

/// The policy of deferred checkpoints, and what is pending under it.
pub struct CkptDefer {
    interval_ns: u128,
    state: StringMap<PendingCkpt>,
}

/// The deferred state of all shards.
pub struct Deferral {
    /// The interval, in nanoseconds.
    pub interval: int,
    pub shards: Map<Seq<char>, Pending>,
}

impl Deferral {
    /// The acknowledgement of `shard` that is not persisted yet.
    pub open spec fn pending(self, shard: Seq<char>) -> Option<Seq<char>> {
        if self.shards.contains_key(shard) {
            self.shards[shard].ack
        } else {
            None
        }
    }

    /// When `shard` was last persisted: `now` if nothing is known of it.
    pub open spec fn last_persist(self, shard: Seq<char>, now: u64) -> u64 {
        if self.shards.contains_key(shard) {
            self.shards[shard].last_persist
        } else {
            now
        }
    }

    /// Has the interval elapsed for `shard`?
    pub open spec fn is_due(self, shard: Seq<char>, now: u64) -> bool {
        let last = self.last_persist(shard, now);
        (if now >= last {
            now - last
        } else {
            0
        }) >= self.interval
    }

    /// After `shard` acknowledged `ack`.
    pub open spec fn acked(self, shard: Seq<char>, ack: Seq<char>, now: u64) -> Deferral {
        Deferral {
            shards: self.shards.insert(
                shard,
                Pending { ack: Some(ack), last_persist: self.last_persist(shard, now) },
            ),
            ..self
        }
    }

    /// After what is pending of `shard` was persisted.
    pub open spec fn saved(self, shard: Seq<char>, now: u64) -> Deferral {
        if self.shards.contains_key(shard) {
            Deferral {
                shards: self.shards.insert(shard, Pending { ack: None, last_persist: now }),
                ..self
            }
        } else {
            self
        }
    }

    /// After what is pending of `shard` was taken out.
    pub open spec fn taken(self, shard: Seq<char>) -> Deferral {
        if self.shards.contains_key(shard) {
            Deferral {
                shards: self.shards.insert(
                    shard,
                    Pending { ack: None, last_persist: self.shards[shard].last_persist },
                ),
                ..self
            }
        } else {
            self
        }
    }

    /// After everything about `shard` was dropped.
    pub open spec fn forgotten(self, shard: Seq<char>) -> Deferral {
        Deferral { shards: self.shards.remove(shard), ..self }
    }

    /// After everything about shards other than `keep` was dropped.
    pub open spec fn restricted(self, keep: Set<Seq<char>>) -> Deferral {
        Deferral { shards: self.shards.restrict(keep), ..self }
    }
}

impl View for CkptDefer {
    type V = Deferral;

    closed spec fn view(&self) -> Deferral {
        Deferral {
            interval: self.interval_ns as int,
            shards: self.state@.map_values(|p: PendingCkpt| p@),
        }
    }
}

impl CkptDefer {
    /// Persist at most once per `interval_ms` and shard.
    pub fn new(interval_ms: u64) -> (d: CkptDefer)
        ensures
            d@ == (Deferral {
                interval: interval_ms * 1_000_000,
                shards: Map::<Seq<char>, Pending>::empty(),
            }),
    {
        let d = CkptDefer {
            interval_ns: (interval_ms as u128) * 1_000_000,
            state: StringMap::new(),
        };
        assert(d@.shards =~= Map::empty());
        d
    }

    fn put(&mut self, shard: &str, ack: Option<String>, last_persist: u64)
        ensures
            final(self)@ == (Deferral {
                shards: old(self)@.shards.insert(
                    shard@,
                    Pending { ack: collections::optional_text(ack), last_persist },
                ),
                ..old(self)@
            }),
    {
        self.state.insert(shard.to_owned(), PendingCkpt { ack, last_persist });
        assert(self@.shards =~= old(self)@.shards.insert(
            shard@,
            Pending { ack: collections::optional_text(ack), last_persist },
        ));
    }

    /// Note that `shard` acknowledged `ack`. Gives it back if the interval has
    /// elapsed: then the caller persists it and calls `persisted`.
    pub fn record_ack(&mut self, shard: &str, ack: &str, now_ns: u64) -> (due: Option<String>)
        ensures
            final(self)@ == old(self)@.acked(shard@, ack@, now_ns),
            collections::optional_text(due) == (if old(self)@.is_due(shard@, now_ns) {
                Some(ack@)
            } else {
                None
            }),
    {
        let last: u64 = match self.state.get(shard) {
            Some(p) => p.last_persist,
            None => now_ns,
        };
        self.put(shard, Some(ack.to_owned()), last);
        let elapsed: u64 = now_ns.saturating_sub(last);
        if (elapsed as u128) >= self.interval_ns {
            Some(ack.to_owned())
        } else {
            None
        }
    }

    /// Note that what is pending of `shard` was persisted.
    pub fn persisted(&mut self, shard: &str, now_ns: u64)
        ensures
            final(self)@ == old(self)@.saved(shard@, now_ns),
    {
        if self.state.contains_key(shard) {
            self.put(shard, None, now_ns);
        }
    }

    /// Take what is pending of `shard`, for a mandatory flush.
    pub fn take_pending(&mut self, shard: &str) -> (r: Option<String>)
        ensures
            collections::optional_text(r) == old(self)@.pending(shard@),
            final(self)@ == old(self)@.taken(shard@),
    {
        let found: Option<(Option<String>, u64)> = match self.state.get(shard) {
            Some(p) => Some((clone_optional(&p.ack), p.last_persist)),
            None => None,
        };
        match found {
            Some((ack, last)) => {
                self.put(shard, None, last);
                ack
            },
            None => None,
        }
    }

    /// Where a pass over `shard` resumes, if something is pending.
    pub fn resume_from(&self, shard: &str) -> (r: Option<String>)
        ensures
            collections::optional_text(r) == self@.pending(shard@),
    {
        match self.state.get(shard) {
            Some(p) => clone_optional(&p.ack),
            None => None,
        }
    }

    /// Drop everything about `shard`.
    pub fn forget(&mut self, shard: &str)
        ensures
            final(self)@ == old(self)@.forgotten(shard@),
    {
        self.state.remove(shard);
        assert(self@.shards =~= old(self)@.shards.remove(shard@));
    }

    /// Drop everything about shards that are not owned any more.
    pub fn prune(&mut self, owned: &StringSet)
        ensures
            final(self)@ == old(self)@.restricted(owned@),
    {
        self.state.retain_in(owned);
        assert(self@.shards =~= old(self)@.shards.restrict(owned@));
    }
}

/// What was acknowledged last is what a pass resumes from, until it is
/// persisted, taken or forgotten; other shards are not affected.
pub proof fn law_resume_follows_the_last_ack(
    d: Deferral,
    shard: Seq<char>,
    ack: Seq<char>,
    other: Seq<char>,
    now: u64,
    later: u64,
)
    requires
        other != shard,
    ensures
        d.acked(shard, ack, now).pending(shard) == Some(ack),
        d.acked(shard, ack, now).saved(shard, later).pending(shard) is None,
        d.acked(shard, ack, now).taken(shard).pending(shard) is None,
        d.acked(shard, ack, now).forgotten(shard).pending(shard) is None,
        d.acked(shard, ack, now).pending(other) == d.pending(other),
        d.saved(shard, later).pending(other) == d.pending(other),
        d.taken(shard).pending(other) == d.pending(other),
        d.forgotten(shard).pending(other) == d.pending(other),
{
}

/// Between two persisted checkpoints of a shard lies at least the interval.
pub proof fn law_persists_at_most_once_per_interval(
    d: Deferral,
    shard: Seq<char>,
    ack: Seq<char>,
    saved_at: u64,
    now: u64,
)
    requires
        d.shards.contains_key(shard),
        saved_at <= now,
        d.saved(shard, saved_at).acked(shard, ack, now).is_due(shard, now),
    ensures
        now - saved_at >= d.interval,
{
}

/// An acknowledgement is to be persisted exactly if the interval has elapsed
/// since the shard was last persisted, however many others came in between; for
/// a shard of which nothing is known the interval starts now.
pub proof fn law_an_ack_is_due_once_the_interval_has_elapsed(
    d: Deferral,
    shard: Seq<char>,
    first: Seq<char>,
    ack: Seq<char>,
    saved_at: u64,
    between: u64,
    now: u64,
)
    requires
        d.interval >= 0,
        saved_at <= now,
        between <= now,
    ensures
        d.shards.contains_key(shard) ==> (d.saved(shard, saved_at).is_due(shard, now) <==> now
            >= saved_at + d.interval),
        d.shards.contains_key(shard) ==> (d.saved(shard, saved_at).acked(
            shard,
            first,
            between,
        ).is_due(shard, now) <==> now >= saved_at + d.interval),
        !d.shards.contains_key(shard) ==> (d.acked(shard, first, between).is_due(shard, now) <==> now
            >= between + d.interval),
        !d.shards.contains_key(shard) ==> (d.is_due(shard, now) <==> d.interval == 0),
        d.acked(shard, ack, now).interval == d.interval,
        d.saved(shard, now).interval == d.interval,
        d.taken(shard).interval == d.interval,
        d.forgotten(shard).interval == d.interval,
{
}

/// Pruning drops what is known of shards that are not owned, and nothing else.
pub proof fn law_pruning_keeps_what_is_owned(
    d: Deferral,
    owned: Set<Seq<char>>,
    shard: Seq<char>,
    now: u64,
)
    ensures
        owned.contains(shard) ==> d.restricted(owned).pending(shard) == d.pending(shard),
        owned.contains(shard) ==> d.restricted(owned).is_due(shard, now) == d.is_due(shard, now),
        !owned.contains(shard) ==> d.restricted(owned).pending(shard) is None,
        !owned.contains(shard) ==> !d.restricted(owned).shards.contains_key(shard),
        d.restricted(owned).interval == d.interval,
{
}

} // verus!
