//! What the members of a fleet do to one shard together, whatever fails: the
//! records that its checkpoint passes have been delivered, and a shard that is
//! marked complete has been delivered as a whole.
//!
//! A shard that is read from its beginning is delivered as a whole. One that is
//! seeded at the tip skips what came before, and where the tip is depends on
//! when it is read: nothing that follows its first real checkpoint is lost.

use vstd::prelude::*;

use crate::fleet::defer::Deferral;
use crate::fleet::pass::{EffectModel, EventModel, PassModel, StageModel, StepModel};
use crate::fleet::pass;
use crate::lease_table::{ChangeModel, ConditionModel, Row};
use crate::lease_table;
use crate::scheduler::Batch;

verus! {

/// One member of the fleet, as far as the shard is concerned.
pub struct Member {
    /// What is pending in its memory.
    pub deferral: Option<Deferral>,
    /// Its pass over the shard.
    pub pass: Option<PassModel>,
    /// The positions of the batch that it read last: from, and up to.
    pub batch: (int, int),
    /// The checkpoint that it is writing: the counter on which the write is
    /// conditional, and the position.
    pub asked: Option<(u64, Seq<char>)>,
}

/// A shard, its lease, and the members that work on it.
pub struct Shard {
    pub id: Seq<char>,
    /// The sequence numbers of all its records, in order.
    pub log: Seq<Seq<char>>,
    pub row: Row,
    /// The counters and checkpoints that the lease has had so far: what scans of
    /// the table have shown.
    pub shown: Set<(int, Option<Seq<char>>)>,
    /// How many records at the beginning of the log need not be delivered: those
    /// before the first checkpoint of a shard that was seeded at the tip.
    pub skipped: int,
    /// The records that were delivered at least once, by their place in the log.
    pub delivered: Set<int>,
    pub members: Map<Seq<char>, Member>,
}

/// The number of records at or before a position; a read after it starts there.
pub open spec fn position(log: Seq<Seq<char>>, after: Option<Seq<char>>) -> int {
    match after {
        Some(seq) => if log.contains(seq) {
            log.index_of(seq) + 1
        } else {
            0
        },
        None => 0,
    }
}

/// Of the first `n` records, those that need be were delivered.
pub open spec fn covered(s: Shard, n: int) -> bool {
    forall|i: int| 0 <= i < n && s.skipped <= i ==> #[trigger] s.delivered.contains(i)
}

/// The sequence numbers of a batch.
pub open spec fn batch_seqs(b: Batch) -> Seq<Seq<char>> {
    b.records.map_values(|r: crate::scheduler::RecordModel| r.seq)
}

/// A read after `after` returned `b`: the records that follow in the log, and
/// the end of the shard only with the last of them.
pub open spec fn serves(log: Seq<Seq<char>>, after: Option<Seq<char>>, b: Batch) -> bool {
    let p = position(log, after);
    let n = b.records.len();
    &&& p + n <= log.len()
    &&& batch_seqs(b) == log.subrange(p, p + n)
    &&& b.shard_end ==> p + n == log.len()
}

/// The checkpoint that a step asks for.
pub open spec fn asked_of(effects: Seq<EffectModel>) -> Option<(u64, Seq<char>)> {
    if effects.len() > 0 {
        match effects.last() {
            EffectModel::Checkpoint(c, seq) => Some((c, seq)),
            _ => None,
        }
    } else {
        None
    }
}

/// A member after a step of its pass.
pub open spec fn stepped(m: Member, t: StepModel, batch: (int, int)) -> Member {
    Member {
        deferral: t.deferral,
        pass: Some(t.pass),
        batch,
        asked: asked_of(t.effects),
    }
}

/// The lease after a member tried to mark the shard complete, if the step asked
/// for it: it may have succeeded if the member held the lease with that counter.
pub open spec fn may_complete(row: Row, who: Seq<char>, effects: Seq<EffectModel>, after: Row) -> bool {
    ||| after == row
    ||| exists|i: int|
        {
            &&& 0 <= i < effects.len()
            &&& #[trigger] effects[i] matches EffectModel::MarkComplete(c)
            &&& lease_table::meets(Some(row), ConditionModel::HeldBy(c, who))
            &&& Some(after) == lease_table::changed(Some(row), ChangeModel::Complete)
        }
}

/// Something that happens to the shard.
pub enum Move {
    /// A member joins the fleet. It may defer its checkpoints; none is pending.
    Join(Seq<char>, Option<Deferral>),
    /// A member starts a pass from a counter and a checkpoint that the lease
    /// has shown. They may be out of date.
    Begin(Seq<char>, u64, Option<Seq<char>>),
    /// A read returned a batch.
    Read(Seq<char>, Batch),
    ReadFailed(Seq<char>),
    /// The batch was delivered; the consumer may have acknowledged a position.
    Deliver(Seq<char>, Option<Seq<char>>),
    /// The delivery failed; some records may have been delivered all the same.
    DeliverFailed(Seq<char>),
    /// A checkpoint was written, and the member heard of it.
    Persist(Seq<char>),
    /// A checkpoint was refused, or the answer got lost: it may have been
    /// written or not.
    PersistFailed(Seq<char>),
    /// A member releases the lease and flushes what is pending first, best
    /// effort.
    Flush(Seq<char>),
    /// A member drops what is pending.
    Forget(Seq<char>),
    /// A member crashes.
    Crash(Seq<char>),
    /// The lease is claimed, renewed or released: its owner changes, and its
    /// counter grows.
    Lease(Option<Seq<char>>, int),
}

/// The lease after a checkpoint was written.
pub open spec fn saved(row: Row, who: Seq<char>, c: u64, seq: Seq<char>, after: Row) -> bool {
    &&& lease_table::meets(Some(row), ConditionModel::HeldBy(c, who))
    &&& Some(after) == lease_table::changed(Some(row), ChangeModel::SaveCheckpoint(seq))
}

/// The move takes the shard from `s` to `t`.
pub open spec fn moves(s: Shard, m: Move, now: u64, t: Shard) -> bool {
    &&& t.id == s.id
    &&& t.log == s.log
    &&& t.skipped == s.skipped
    &&& t.shown == s.shown.insert((t.row.counter, t.row.checkpoint))
    &&& match m {
        Move::Join(w, deferral) => {
            &&& !s.members.contains_key(w)
            &&& pass::pending_of(deferral, s.id) is None
            &&& t.row == s.row
            &&& t.delivered == s.delivered
            &&& t.members == s.members.insert(
                w,
                Member { deferral, pass: None, batch: (0, 0), asked: None },
            )
        },
        Move::Begin(w, counter, checkpoint) => {
            let old = s.members[w];
            let pending = pass::pending_of(old.deferral, s.id);
            &&& s.members.contains_key(w)
            &&& old.pass matches Some(p) ==> p.stage is Finished
            &&& s.shown.contains((counter as int, checkpoint))
            &&& t.row == s.row
            &&& t.delivered == s.delivered
            &&& t.members == s.members.insert(
                w,
                Member {
                    deferral: old.deferral,
                    pass: Some(
                        PassModel {
                            shard: s.id,
                            counter,
                            after: if pending is Some {
                                pending
                            } else {
                                checkpoint
                            },
                            delivered_any: false,
                            stage: StageModel::Fetching,
                        },
                    ),
                    batch: (0, 0),
                    asked: None,
                },
            )
        },
        Move::Read(w, b) => {
            let old = s.members[w];
            let p = old.pass->0;
            let from = position(s.log, p.after);
            let step = pass::pass_step(p, old.deferral, EventModel::Fetched(b), now);
            &&& s.members.contains_key(w) && old.pass is Some && p.stage is Fetching
            &&& serves(s.log, p.after, b)
            &&& may_complete(s.row, w, step.effects, t.row)
            &&& t.delivered == s.delivered
            &&& t.members == s.members.insert(
                w,
                stepped(old, step, (from, from + b.records.len())),
            )
        },
        Move::ReadFailed(w) => {
            let old = s.members[w];
            let p = old.pass->0;
            let step = pass::pass_step(p, old.deferral, EventModel::FetchFailed, now);
            &&& s.members.contains_key(w) && old.pass is Some && p.stage is Fetching
            &&& t.row == s.row
            &&& t.delivered == s.delivered
            &&& t.members == s.members.insert(w, stepped(old, step, old.batch))
        },
        Move::Deliver(w, ack) => {
            let old = s.members[w];
            let p = old.pass->0;
            let step = pass::pass_step(p, old.deferral, EventModel::Delivered(ack), now);
            &&& s.members.contains_key(w) && old.pass is Some && p.stage is Delivering
            &&& ack matches Some(a) ==> s.log.subrange(old.batch.0, old.batch.1).contains(a)
            &&& may_complete(s.row, w, step.effects, t.row)
            &&& t.delivered == s.delivered.union(
                Set::new(|i: int| old.batch.0 <= i < old.batch.1),
            )
            &&& t.members == s.members.insert(w, stepped(old, step, old.batch))
        },
        Move::DeliverFailed(w) => {
            let old = s.members[w];
            let p = old.pass->0;
            let step = pass::pass_step(p, old.deferral, EventModel::DeliveryFailed, now);
            &&& s.members.contains_key(w) && old.pass is Some && p.stage is Delivering
            &&& t.row == s.row
            &&& s.delivered.subset_of(t.delivered)
            &&& t.members == s.members.insert(w, stepped(old, step, old.batch))
        },
        Move::Persist(w) => {
            let old = s.members[w];
            let p = old.pass->0;
            let (c, seq) = old.asked->0;
            let step = pass::pass_step(
                p,
                old.deferral,
                EventModel::Persisted((c + 1) as u64),
                now,
            );
            &&& s.members.contains_key(w) && old.pass is Some && old.asked is Some
            &&& p.stage is Persisting || p.stage is Flushing
            &&& c < u64::MAX
            &&& exists|row: Row| #[trigger]
                saved(s.row, w, c, seq, row) && may_complete(row, w, step.effects, t.row)
            &&& t.delivered == s.delivered
            &&& t.members == s.members.insert(w, stepped(old, step, old.batch))
        },
        Move::PersistFailed(w) => {
            let old = s.members[w];
            let p = old.pass->0;
            let (c, seq) = old.asked->0;
            let step = pass::pass_step(p, old.deferral, EventModel::PersistFailed, now);
            &&& s.members.contains_key(w) && old.pass is Some && old.asked is Some
            &&& p.stage is Persisting || p.stage is Flushing
            &&& t.row == s.row || saved(s.row, w, c, seq, t.row)
            &&& t.delivered == s.delivered
            &&& t.members == s.members.insert(w, stepped(old, step, old.batch))
        },
        Move::Flush(w) => {
            let old = s.members[w];
            let pending = pass::pending_of(old.deferral, s.id);
            &&& s.members.contains_key(w)
            &&& old.pass matches Some(p) ==> p.stage is Finished
            &&& t.row == s.row || (pending is Some && exists|c: u64| #[trigger]
                saved(s.row, w, c, pending->0, t.row))
            &&& t.delivered == s.delivered
            &&& t.members == s.members.insert(
                w,
                Member { deferral: pass::without(old.deferral, s.id), ..old },
            )
        },
        Move::Forget(w) => {
            let old = s.members[w];
            &&& s.members.contains_key(w)
            &&& t.row == s.row
            &&& t.delivered == s.delivered
            &&& t.members == s.members.insert(
                w,
                Member { deferral: pass::without(old.deferral, s.id), ..old },
            )
        },
        Move::Crash(w) => {
            &&& t.row == s.row
            &&& t.delivered == s.delivered
            &&& t.members == s.members.remove(w)
        },
        Move::Lease(owner, counter) => {
            &&& s.row.counter < counter
            &&& t.row == (Row { owner, counter, ..s.row })
            &&& t.delivered == s.delivered
            &&& t.members == s.members
        },
    }
}

/// What is known of a member: wherever it stands, everything before it was
/// delivered.
pub open spec fn is_sound(s: Shard, m: Member) -> bool {
    let pending = pass::pending_of(m.deferral, s.id);
    &&& pending is Some ==> covered(s, position(s.log, pending))
    &&& m.pass matches Some(p) ==> {
        &&& p.shard == s.id
        &&& covered(s, position(s.log, p.after))
        &&& match p.stage {
            StageModel::Fetching => true,
            StageModel::Delivering(n) => {
                &&& m.batch.0 == position(s.log, p.after)
                &&& m.batch.0 < m.batch.1 <= s.log.len()
                &&& n.last == s.log[m.batch.1 - 1]
                &&& n.end ==> m.batch.1 == s.log.len()
            },
            StageModel::Persisting(n, _) => {
                &&& covered(s, position(s.log, Some(n.last)))
                &&& position(s.log, p.after) < position(s.log, Some(n.last)) <= s.log.len()
                &&& n.end ==> position(s.log, Some(n.last)) == s.log.len()
                &&& m.asked is Some
                &&& covered(s, position(s.log, Some((m.asked->0).1)))
            },
            StageModel::Flushing => {
                &&& covered(s, s.log.len() as int)
                &&& m.asked is Some
            },
            StageModel::Finished => true,
        }
    }
}

/// Nothing was lost: the records that the checkpoint passes were delivered, and
/// if the shard is marked complete, all of them were.
pub open spec fn nothing_lost(s: Shard) -> bool {
    &&& covered(s, position(s.log, s.row.checkpoint))
    &&& s.row.completed ==> covered(s, s.log.len() as int)
}

/// What the lease has shown was true: everything before the checkpoint was
/// delivered, and the counter has grown with every change of the checkpoint.
pub open spec fn is_recorded(s: Shard) -> bool {
    forall|c: int, checkpoint: Option<Seq<char>>| #[trigger]
        s.shown.contains((c, checkpoint)) ==> {
            &&& c <= s.row.counter
            &&& c == s.row.counter ==> checkpoint == s.row.checkpoint
            &&& covered(s, position(s.log, checkpoint))
        }
}

/// The state of a shard in which nothing was lost and no member is mistaken.
pub open spec fn is_safe(s: Shard) -> bool {
    &&& s.log.no_duplicates()
    &&& nothing_lost(s)
    &&& is_recorded(s)
    &&& forall|w: Seq<char>| #[trigger] s.members.contains_key(w) ==> is_sound(s, s.members[w])
}

proof fn lemma_position_at(log: Seq<Seq<char>>, i: int)
    requires
        log.no_duplicates(),
        0 <= i < log.len(),
    ensures
        position(log, Some(log[i])) == i + 1,
{
    assert(log.contains(log[i]));
    let k = log.index_of(log[i]);
    assert(log[k] == log[i]);
}

proof fn lemma_position_bounds(log: Seq<Seq<char>>, after: Option<Seq<char>>)
    ensures
        0 <= position(log, after) <= log.len(),
{
    if let Some(seq) = after {
        if log.contains(seq) {
            let k = log.index_of(seq);
            assert(log[k] == seq);
        }
    }
}

/// What was sound stays so while more is delivered.
proof fn lemma_still_sound(s: Shard, t: Shard, m: Member)
    requires
        is_sound(s, m),
        t.id == s.id,
        t.log == s.log,
        t.skipped == s.skipped,
        s.delivered.subset_of(t.delivered),
    ensures
        is_sound(t, m),
{
    assert forall|n: int| covered(s, n) implies #[trigger] covered(t, n) by {
        assert forall|i: int| 0 <= i < n && t.skipped <= i implies #[trigger] t.delivered.contains(
                i,
            ) by {
            assert(s.delivered.contains(i));
        }
    }
    let pending = pass::pending_of(m.deferral, s.id);
    if pending is Some {
        assert(covered(t, position(s.log, pending)));
    }
    if let Some(p) = m.pass {
        assert(covered(t, position(s.log, p.after)));
        match p.stage {
            StageModel::Persisting(n, _) => {
                assert(covered(t, position(s.log, Some(n.last))));
                assert(covered(t, position(s.log, Some((m.asked->0).1))));
            },
            StageModel::Flushing => {
                assert(covered(t, s.log.len() as int));
            },
            _ => {},
        }
    }
}

/// A step that marks the shard complete follows the delivery of all records.
proof fn lemma_read_is_sound(s: Shard, w: Seq<char>, b: Batch, now: u64, t: Shard)
    requires
        is_safe(s),
        moves(s, Move::Read(w, b), now, t),
    ensures
        is_sound(t, t.members[w]),
        nothing_lost(t),
{
    let old = s.members[w];
    let p = old.pass->0;
    let from = position(s.log, p.after);
    let n = b.records.len() as int;
    lemma_position_bounds(s.log, p.after);
    assert(is_sound(s, old));
    lemma_still_sound(s, t, old);
    if n > 0 {
        assert(batch_seqs(b)[n - 1] == s.log.subrange(from, from + n)[n - 1]);
    } else if b.shard_end {
        assert(from == s.log.len());
        assert(covered(t, s.log.len() as int));
    }
    assert(covered(s, position(s.log, s.row.checkpoint)));
    assert(covered(t, position(t.log, t.row.checkpoint)));
}

proof fn lemma_deliver_is_sound(s: Shard, w: Seq<char>, ack: Option<Seq<char>>, now: u64, t: Shard)
    requires
        is_safe(s),
        moves(s, Move::Deliver(w, ack), now, t),
    ensures
        is_sound(t, t.members[w]),
        nothing_lost(t),
        s.delivered.subset_of(t.delivered),
{
    let old = s.members[w];
    let p = old.pass->0;
    let n = p.stage->Delivering_0;
    let (from, to) = old.batch;
    assert(is_sound(s, old));
    lemma_still_sound(s, t, old);
    assert forall|i: int| 0 <= i < to && t.skipped <= i implies #[trigger] t.delivered.contains(i) by {
        if i < from {
            assert(s.delivered.contains(i));
        }
    }
    assert(covered(t, to));
    lemma_position_at(s.log, to - 1);
    if let Some(a) = ack {
        let k = s.log.subrange(from, to).index_of(a);
        assert(s.log.subrange(from, to)[k] == a);
        lemma_position_at(s.log, from + k);
        assert(covered(t, position(s.log, Some(a))));
    }
    if n.end {
        assert(covered(t, s.log.len() as int));
    }
    assert forall|m: int| covered(s, m) implies #[trigger] covered(t, m) by {
        assert forall|i: int| 0 <= i < m && t.skipped <= i implies #[trigger] t.delivered.contains(
                i,
            ) by {
            assert(s.delivered.contains(i));
        }
    }
    assert(covered(t, position(s.log, s.row.checkpoint)));
}

proof fn lemma_persist_is_sound(s: Shard, w: Seq<char>, now: u64, t: Shard)
    requires
        is_safe(s),
        moves(s, Move::Persist(w), now, t),
    ensures
        is_sound(t, t.members[w]),
        nothing_lost(t),
{
    let old = s.members[w];
    let p = old.pass->0;
    let (c, seq) = old.asked->0;
    assert(is_sound(s, old));
    lemma_still_sound(s, t, old);
    if let StageModel::Persisting(n, _) = p.stage {
        assert(covered(t, position(s.log, Some(n.last))));
        assert(covered(t, position(s.log, Some(seq))));
    } else {
        assert(covered(t, s.log.len() as int));
        lemma_position_bounds(s.log, Some(seq));
        assert(covered(t, position(s.log, Some(seq))));
        lemma_position_bounds(s.log, p.after);
    }
    assert(covered(t, position(t.log, t.row.checkpoint)));
}

/// Whatever happens, nothing is lost and no member becomes mistaken.
pub proof fn law_a_move_loses_nothing(s: Shard, m: Move, now: u64, t: Shard)
    requires
        is_safe(s),
        moves(s, m, now, t),
    ensures
        is_safe(t),
        s.delivered.subset_of(t.delivered),
{
    match m {
        Move::Read(w, b) => {
            lemma_read_is_sound(s, w, b, now, t);
        },
        Move::Deliver(w, ack) => {
            lemma_deliver_is_sound(s, w, ack, now, t);
        },
        Move::Persist(w) => {
            lemma_persist_is_sound(s, w, now, t);
        },
        _ => {},
    }
    assert forall|n: int| covered(s, n) implies #[trigger] covered(t, n) by {
        assert forall|i: int| 0 <= i < n && t.skipped <= i implies #[trigger] t.delivered.contains(
                i,
            ) by {
            assert(s.delivered.contains(i));
        }
    }
    assert forall|w: Seq<char>| #[trigger] t.members.contains_key(w) implies is_sound(
        t,
        t.members[w],
    ) by {
        if s.members.contains_key(w) {
            assert(is_sound(s, s.members[w]));
            lemma_still_sound(s, t, s.members[w]);
        }
        match m {
            Move::Begin(v, c, checkpoint) => {
                assert(s.shown.contains((c as int, checkpoint)));
                assert(covered(t, position(s.log, checkpoint)));
            },
            _ => {},
        }
    }
    match m {
        Move::PersistFailed(w) => {
            let old = s.members[w];
            assert(is_sound(s, old));
            lemma_position_bounds(s.log, Some((old.asked->0).1));
            assert(covered(t, position(s.log, Some((old.asked->0).1))));
        },
        Move::Flush(w) => {
            let old = s.members[w];
            assert(is_sound(s, old));
            if pass::pending_of(old.deferral, s.id) is Some {
                assert(covered(t, position(s.log, pass::pending_of(old.deferral, s.id))));
            }
        },
        _ => {},
    }
    assert(covered(t, position(s.log, s.row.checkpoint)));
    assert forall|c: int, checkpoint: Option<Seq<char>>| #[trigger]
        t.shown.contains((c, checkpoint)) implies {
        &&& c <= t.row.counter
        &&& c == t.row.counter ==> checkpoint == t.row.checkpoint
        &&& covered(t, position(t.log, checkpoint))
    } by {
        if s.shown.contains((c, checkpoint)) {
            assert(covered(t, position(s.log, checkpoint)));
        }
    }
}

/// A shard that nobody has worked on yet.
pub open spec fn is_fresh(s: Shard) -> bool {
    &&& s.log.no_duplicates()
    &&& s.row.checkpoint is None
    &&& !s.row.completed
    &&& s.skipped == 0
    &&& s.shown == set![(s.row.counter, s.row.checkpoint)]
    &&& s.members == Map::<Seq<char>, Member>::empty()
}

/// The moves, each at its time, take the shard through these states.
pub open spec fn runs(states: Seq<Shard>, made: Seq<(Move, u64)>) -> bool {
    &&& states.len() == made.len() + 1
    &&& forall|i: int|
        0 <= i < made.len() ==> moves(
            states[i],
            (#[trigger] made[i]).0,
            made[i].1,
            states[i + 1],
        )
}

/// Delivery is at least once. Whatever the members of a fleet do to a shard,
/// in whatever order, and whoever crashes or loses the lease at any time: every
/// record that the checkpoint passes was delivered, and once the shard is
/// marked complete, every record was.
pub proof fn law_no_record_is_lost(states: Seq<Shard>, made: Seq<(Move, u64)>, i: int)
    requires
        runs(states, made),
        is_fresh(states[0]),
        0 <= i < states.len(),
    ensures
        nothing_lost(states[i]),
        is_safe(states[i]),
    decreases i,
{
    if i > 0 {
        law_no_record_is_lost(states, made, i - 1);
        law_a_move_loses_nothing(states[i - 1], made[i - 1].0, made[i - 1].1, states[i]);
    }
}

/// A shard with a real checkpoint: what came before it is not asked for, what
/// the members have passed since was delivered, and the lease shows nothing
/// older.
pub open spec fn is_anchored(s: Shard) -> bool {
    &&& s.log.no_duplicates()
    &&& s.row.checkpoint matches Some(seq) && s.log.contains(seq)
    &&& s.skipped == position(s.log, s.row.checkpoint)
    &&& nothing_lost(s)
    &&& s.shown == set![(s.row.counter, s.row.checkpoint)]
    &&& forall|w: Seq<char>| #[trigger] s.members.contains_key(w) ==> is_sound(s, s.members[w])
}

/// Nothing that follows a real checkpoint is lost, wherever the shard was seeded
/// and whatever happens from then on: every record between that checkpoint and
/// a later one was delivered, and once the shard is marked complete, every
/// record behind it was.
pub proof fn law_no_record_behind_a_checkpoint_is_lost(
    states: Seq<Shard>,
    made: Seq<(Move, u64)>,
    i: int,
)
    requires
        runs(states, made),
        is_anchored(states[0]),
        0 <= i < states.len(),
    ensures
        nothing_lost(states[i]),
        states[i].skipped == position(states[0].log, states[0].row.checkpoint),
        is_safe(states[i]),
    decreases i,
{
    if i > 0 {
        law_no_record_behind_a_checkpoint_is_lost(states, made, i - 1);
        law_a_move_loses_nothing(states[i - 1], made[i - 1].0, made[i - 1].1, states[i]);
    }
}

/// `w` read a batch at the tip, delivered it and is writing the first real
/// checkpoint of the shard. Nobody else has begun to read it.
pub open spec fn is_first_checkpoint(s: Shard, w: Seq<char>) -> bool {
    let m = s.members[w];
    let p = m.pass->0;
    let (from, to) = m.batch;
    &&& s.log.no_duplicates()
    &&& !s.row.completed
    &&& s.members.contains_key(w)
    &&& m.pass is Some
    &&& p.shard == s.id
    &&& 0 <= from < to <= s.log.len()
    &&& p.stage matches StageModel::Persisting(n, _) && n.last == s.log[to - 1] && (n.end ==> to
        == s.log.len())
    &&& m.asked matches Some(asked) && s.log.subrange(from, to).contains(asked.1)
    &&& pass::pending_of(m.deferral, s.id) matches Some(a) ==> a == (m.asked->0).1
    &&& forall|i: int| from <= i < to ==> #[trigger] s.delivered.contains(i)
    &&& forall|v: Seq<char>| #[trigger]
        s.members.contains_key(v) && v != w ==> s.members[v].pass is None && pass::pending_of(
            s.members[v].deferral,
            s.id,
        ) is None
}

/// The shard, counted from its checkpoint on.
pub open spec fn counted_from_checkpoint(s: Shard) -> Shard {
    Shard {
        skipped: position(s.log, s.row.checkpoint),
        shown: set![(s.row.counter, s.row.checkpoint)],
        ..s
    }
}

/// The first real checkpoint of a shard that was seeded at the tip is one that
/// nothing behind is lost of.
pub proof fn law_the_first_checkpoint_anchors_a_shard(s: Shard, w: Seq<char>, now: u64, t: Shard)
    requires
        is_first_checkpoint(s, w),
        moves(s, Move::Persist(w), now, t),
    ensures
        is_anchored(counted_from_checkpoint(t)),
{
    let u = counted_from_checkpoint(t);
    let m = s.members[w];
    let p = m.pass->0;
    let (from, to) = m.batch;
    let (c, seq) = m.asked->0;
    let k = s.log.subrange(from, to).index_of(seq);
    assert(s.log.subrange(from, to)[k] == seq);
    assert(s.log[from + k] == seq);
    lemma_position_at(s.log, from + k);
    lemma_position_at(s.log, to - 1);
    assert(t.row.checkpoint == Some(seq));
    assert(s.log.contains(seq));
    assert(covered(u, to));
    assert forall|v: Seq<char>| #[trigger] u.members.contains_key(v) implies is_sound(
        u,
        u.members[v],
    ) by {
        if v != w {
            assert(s.members.contains_key(v));
        } else {
            assert(covered(u, position(u.log, Some(s.log[to - 1]))));
        }
    }
}

/// Checkpoints are not deferred, and a member that holds the lease is not behind
/// its checkpoint.
pub open spec fn is_ahead(s: Shard, w: Seq<char>, m: Member) -> bool {
    &&& m.deferral is None
    &&& m.pass matches Some(p) ==> {
        &&& p.counter <= s.row.counter
        &&& !(p.stage is Flushing)
        &&& p.counter == s.row.counter && s.row.owner == Some(w) && !(p.stage is Finished)
            ==> position(s.log, s.row.checkpoint) <= position(s.log, p.after)
        &&& p.stage matches StageModel::Persisting(n, _) ==> {
            &&& m.asked is Some
            &&& (m.asked->0).0 == p.counter
            &&& position(s.log, p.after) < position(s.log, Some((m.asked->0).1)) <= position(
                s.log,
                Some(n.last),
            )
        }
    }
}

/// Every member is ahead of the checkpoint, as far as it holds the lease.
pub open spec fn is_orderly(s: Shard) -> bool {
    forall|w: Seq<char>| #[trigger] s.members.contains_key(w) ==> is_ahead(s, w, s.members[w])
}

/// A member joins that defers its checkpoints.
pub open spec fn defers(m: Move) -> bool {
    m matches Move::Join(_, deferral) && deferral is Some
}

/// As long as checkpoints are written after each batch, they only advance: a
/// member that lost the lease cannot set back what its successor has reached.
pub proof fn law_checkpoints_only_advance(s: Shard, m: Move, now: u64, t: Shard)
    requires
        is_safe(s),
        is_orderly(s),
        moves(s, m, now, t),
        !defers(m),
    ensures
        is_orderly(t),
        position(s.log, s.row.checkpoint) <= position(t.log, t.row.checkpoint),
{
    lemma_position_bounds(s.log, s.row.checkpoint);
    match m {
        Move::Deliver(w, ack) => {
            let old = s.members[w];
            let (from, to) = old.batch;
            assert(is_sound(s, old));
            assert(is_ahead(s, w, old));
            lemma_position_at(s.log, to - 1);
            if let Some(a) = ack {
                let k = s.log.subrange(from, to).index_of(a);
                assert(s.log.subrange(from, to)[k] == a);
                lemma_position_at(s.log, from + k);
            }
        },
        Move::Persist(w) => {
            assert(is_sound(s, s.members[w]));
            assert(is_ahead(s, w, s.members[w]));
        },
        Move::PersistFailed(w) => {
            assert(is_sound(s, s.members[w]));
            assert(is_ahead(s, w, s.members[w]));
        },
        Move::Flush(w) => {
            assert(is_ahead(s, w, s.members[w]));
        },
        _ => {},
    }
    assert forall|w: Seq<char>| #[trigger] t.members.contains_key(w) implies is_ahead(
        t,
        w,
        t.members[w],
    ) by {
        if s.members.contains_key(w) {
            assert(is_ahead(s, w, s.members[w]));
            assert(is_sound(s, s.members[w]));
        }
        if let Move::Begin(v, c, checkpoint) = m {
            assert(s.shown.contains((c as int, checkpoint)));
        }
    }
}

/// In a fleet that does not defer checkpoints, the checkpoint of a shard never
/// goes back, whoever holds the lease, and whoever still believes to hold it.
pub proof fn law_checkpoints_never_go_back(
    states: Seq<Shard>,
    made: Seq<(Move, u64)>,
    i: int,
    j: int,
)
    requires
        runs(states, made),
        is_fresh(states[0]),
        forall|k: int| 0 <= k < made.len() ==> !defers((#[trigger] made[k]).0),
        0 <= i <= j < states.len(),
    ensures
        position(states[i].log, states[i].row.checkpoint) <= position(
            states[j].log,
            states[j].row.checkpoint,
        ),
        is_orderly(states[j]),
    decreases j,
{
    if j > 0 {
        let k = j - 1;
        if i < j {
            law_checkpoints_never_go_back(states, made, i, k);
        } else {
            law_checkpoints_never_go_back(states, made, k, k);
        }
        law_no_record_is_lost(states, made, k);
        assert(!defers(made[k].0));
        law_checkpoints_only_advance(states[k], made[k].0, made[k].1, states[j]);
    }
}

/// The move is one that a member makes in its cycles: it claims a lease only
/// while it reads nothing of the shard and has nothing pending of it, and while
/// it holds the lease, it starts a pass from the checkpoint as it is.
pub open spec fn is_tidy(s: Shard, m: Move) -> bool {
    match m {
        Move::Lease(Some(w), _) => s.row.owner != Some(w) && s.members.contains_key(w) ==> {
            &&& s.members[w].pass matches Some(p) ==> p.stage is Finished
            &&& pass::pending_of(s.members[w].deferral, s.id) is None
        },
        Move::Begin(w, _, checkpoint) => s.row.owner == Some(w) ==> checkpoint == s.row.checkpoint,
        _ => true,
    }
}

/// A member that holds the lease is not behind its checkpoint, neither with what
/// it reads nor with what is pending.
pub open spec fn is_abreast(s: Shard, w: Seq<char>, m: Member) -> bool {
    let checkpoint = position(s.log, s.row.checkpoint);
    let pending = pass::pending_of(m.deferral, s.id);
    s.row.owner == Some(w) ==> {
        &&& pending is Some ==> checkpoint <= position(s.log, pending)
        &&& m.pass matches Some(p) ==> {
            &&& !(p.stage is Finished) ==> checkpoint <= position(s.log, p.after)
            &&& p.stage matches StageModel::Persisting(n, _) ==> {
                &&& m.asked is Some
                &&& position(s.log, p.after) < position(s.log, Some((m.asked->0).1)) <= position(
                    s.log,
                    Some(n.last),
                )
                &&& pending is Some ==> pending == Some((m.asked->0).1)
            }
            &&& p.stage is Flushing ==> m.asked is Some && checkpoint <= position(
                s.log,
                Some((m.asked->0).1),
            )
        }
    }
}

/// Every member is abreast of the checkpoint, if it holds the lease.
pub open spec fn is_settled(s: Shard) -> bool {
    forall|w: Seq<char>| #[trigger] s.members.contains_key(w) ==> is_abreast(s, w, s.members[w])
}

proof fn lemma_read_keeps_abreast(s: Shard, w: Seq<char>, b: Batch, now: u64, t: Shard)
    requires
        is_safe(s),
        s.members.contains_key(w),
        is_abreast(s, w, s.members[w]),
        moves(s, Move::Read(w, b), now, t),
    ensures
        is_abreast(t, w, t.members[w]),
        position(s.log, s.row.checkpoint) <= position(t.log, t.row.checkpoint),
{
    let old = s.members[w];
    assert(is_sound(s, old));
    lemma_position_bounds(s.log, s.row.checkpoint);
}

proof fn lemma_deliver_keeps_abreast(s: Shard, w: Seq<char>, ack: Option<Seq<char>>, now: u64, t: Shard)
    requires
        is_safe(s),
        s.members.contains_key(w),
        is_abreast(s, w, s.members[w]),
        moves(s, Move::Deliver(w, ack), now, t),
    ensures
        is_abreast(t, w, t.members[w]),
        position(s.log, s.row.checkpoint) <= position(t.log, t.row.checkpoint),
{
    let old = s.members[w];
    assert(is_sound(s, old));
    lemma_position_bounds(s.log, s.row.checkpoint);
    let (from, to) = old.batch;
    lemma_position_at(s.log, to - 1);
    if let Some(a) = ack {
        let k = s.log.subrange(from, to).index_of(a);
        assert(s.log.subrange(from, to)[k] == a);
        lemma_position_at(s.log, from + k);
    }
}

proof fn lemma_persist_keeps_abreast(s: Shard, w: Seq<char>, now: u64, t: Shard)
    requires
        is_safe(s),
        s.members.contains_key(w),
        is_abreast(s, w, s.members[w]),
        moves(s, Move::Persist(w), now, t),
    ensures
        is_abreast(t, w, t.members[w]),
        position(s.log, s.row.checkpoint) <= position(t.log, t.row.checkpoint),
{
    let old = s.members[w];
    assert(is_sound(s, old));
    lemma_position_bounds(s.log, s.row.checkpoint);
}

proof fn lemma_failure_keeps_abreast(s: Shard, w: Seq<char>, now: u64, t: Shard)
    requires
        is_safe(s),
        s.members.contains_key(w),
        is_abreast(s, w, s.members[w]),
        moves(s, Move::PersistFailed(w), now, t),
    ensures
        is_abreast(t, w, t.members[w]),
        position(s.log, s.row.checkpoint) <= position(t.log, t.row.checkpoint),
{
    let old = s.members[w];
    assert(is_sound(s, old));
    lemma_position_bounds(s.log, s.row.checkpoint);
}

/// The member that a move is about.
pub open spec fn actor_of(m: Move) -> Option<Seq<char>> {
    match m {
        Move::Join(w, _) => Some(w),
        Move::Begin(w, _, _) => Some(w),
        Move::Read(w, _) => Some(w),
        Move::ReadFailed(w) => Some(w),
        Move::Deliver(w, _) => Some(w),
        Move::DeliverFailed(w) => Some(w),
        Move::Persist(w) => Some(w),
        Move::PersistFailed(w) => Some(w),
        Move::Flush(w) => Some(w),
        Move::Forget(w) => Some(w),
        Move::Crash(w) => Some(w),
        Move::Lease(_, _) => None,
    }
}

/// What a member does leaves the others as they are, and does not touch the
/// checkpoint of a lease that another one holds.
proof fn lemma_others_stay_abreast(s: Shard, m: Move, now: u64, t: Shard, w: Seq<char>)
    requires
        moves(s, m, now, t),
        actor_of(m) is Some,
        actor_of(m) != Some(w),
        t.members.contains_key(w),
        is_abreast(s, w, s.members[w]),
    ensures
        s.members.contains_key(w),
        is_abreast(t, w, t.members[w]),
{
    assert(t.members[w] == s.members[w]);
    assert(t.row.owner == s.row.owner);
    assert(s.row.owner == Some(w) ==> t.row.checkpoint == s.row.checkpoint);
}

/// Deferred or not, checkpoints only advance, as long as members claim and start
/// as they do in their cycles.
pub proof fn law_deferred_checkpoints_only_advance(s: Shard, m: Move, now: u64, t: Shard)
    requires
        is_safe(s),
        is_settled(s),
        is_tidy(s, m),
        moves(s, m, now, t),
    ensures
        is_settled(t),
        position(s.log, s.row.checkpoint) <= position(t.log, t.row.checkpoint),
{
    match m {
        Move::Read(w, b) => {
            lemma_read_keeps_abreast(s, w, b, now, t);
        },
        Move::Deliver(w, ack) => {
            lemma_deliver_keeps_abreast(s, w, ack, now, t);
        },
        Move::Persist(w) => {
            lemma_persist_keeps_abreast(s, w, now, t);
        },
        Move::PersistFailed(w) => {
            lemma_failure_keeps_abreast(s, w, now, t);
        },
        Move::Flush(w) => {
            assert(is_abreast(s, w, s.members[w]));
        },
        _ => {},
    }
    assert forall|w: Seq<char>| #[trigger] t.members.contains_key(w) implies is_abreast(
        t,
        w,
        t.members[w],
    ) by {
        if s.members.contains_key(w) {
            assert(is_abreast(s, w, s.members[w]));
        }
        if actor_of(m) is Some && actor_of(m) != Some(w) {
            assert(s.members.contains_key(w));
            lemma_others_stay_abreast(s, m, now, t, w);
        }
    }
}

/// In a fleet whose members claim and start as they do in their cycles, the
/// checkpoint of a shard never goes back, whether checkpoints are deferred or
/// not.
pub proof fn law_deferred_checkpoints_never_go_back(
    states: Seq<Shard>,
    made: Seq<(Move, u64)>,
    i: int,
    j: int,
)
    requires
        runs(states, made),
        is_fresh(states[0]),
        forall|k: int| 0 <= k < made.len() ==> is_tidy(states[k], (#[trigger] made[k]).0),
        0 <= i <= j < states.len(),
    ensures
        position(states[i].log, states[i].row.checkpoint) <= position(
            states[j].log,
            states[j].row.checkpoint,
        ),
        is_settled(states[j]),
    decreases j,
{
    if j > 0 {
        let k = j - 1;
        if i < j {
            law_deferred_checkpoints_never_go_back(states, made, i, k);
        } else {
            law_deferred_checkpoints_never_go_back(states, made, k, k);
        }
        law_no_record_is_lost(states, made, k);
        assert(is_tidy(states[k], made[k].0));
        law_deferred_checkpoints_only_advance(states[k], made[k].0, made[k].1, states[j]);
    }
}

/// How many answers a pass still waits for at most.
pub open spec fn answers_left(log: Seq<Seq<char>>, p: PassModel) -> int {
    let left = log.len() - position(log, p.after);
    match p.stage {
        StageModel::Fetching => 3 * left + 3,
        StageModel::Delivering(_) => 3 * left + 2,
        StageModel::Persisting(_, _) => 3 * left + 1,
        StageModel::Flushing => 1,
        StageModel::Finished => 0,
    }
}

/// The move is an answer to the pass of `w`.
pub open spec fn answers(m: Move, w: Seq<char>) -> bool {
    match m {
        Move::Read(v, _) => v == w,
        Move::ReadFailed(v) => v == w,
        Move::Deliver(v, _) => v == w,
        Move::DeliverFailed(v) => v == w,
        Move::Persist(v) => v == w,
        Move::PersistFailed(v) => v == w,
        _ => false,
    }
}

/// A pass ends: every answer that it gets takes it closer to its end, however
/// the reads cut the log into batches.
pub proof fn law_a_pass_ends(s: Shard, m: Move, now: u64, t: Shard, w: Seq<char>)
    requires
        is_safe(s),
        moves(s, m, now, t),
        answers(m, w),
    ensures
        t.members[w].pass is Some,
        0 <= answers_left(t.log, t.members[w].pass->0) < answers_left(
            s.log,
            s.members[w].pass->0,
        ),
{
    let old = s.members[w];
    let p = old.pass->0;
    let q = t.members[w].pass->0;
    assert(is_sound(s, old));
    lemma_position_bounds(s.log, p.after);
    lemma_position_bounds(t.log, q.after);
    match p.stage {
        StageModel::Delivering(n) => {
            lemma_position_at(s.log, old.batch.1 - 1);
        },
        _ => {},
    }
}

} // verus!
