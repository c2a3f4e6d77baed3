//! The lease table: conditional writes under an optimistic lock on the lease
//! counter, what their outcomes mean, and how the table is set up.
//!
//! Every transition of a lease is conditional on the counter that the writer
//! last read, so that one worker at most wins it. What a write does is stated
//! over a model of the table; how it is worded for DynamoDB is stated too.

use vstd::prelude::*;

use crate::collections::{clone_optional, clone_strings};
use crate::collections;
use crate::coordinator::heartbeat_key;
use crate::coordinator;


use crate::text;

verus! {

/// The key of a shard lease when there is one stream: the shard id.
pub fn single_stream_lease_key(shard_id: &str) -> (key: String)
    ensures
        key@ == shard_id@,
{
    shard_id.to_owned()
}

/// A row of the lease table.
#[derive(Clone, Debug, PartialEq, Eq)]
pub struct Lease {
    pub lease_key: String,
    pub lease_owner: Option<String>,
    /// Advanced by every heartbeat and every change of ownership.
    pub lease_counter: u64,
    /// The last processed sequence number.
    pub checkpoint: Option<String>,
    /// The shard is fully processed. The row stays as a tombstone until the
    /// children of the shard are being processed.
    pub completed: bool,
    /// The parents of the shard.
    pub parents: Vec<String>,
}

/// A row, with text in place of strings.
pub struct LeaseModel {
    pub key: Seq<char>,
    pub owner: Option<Seq<char>>,
    pub counter: u64,
    pub checkpoint: Option<Seq<char>>,
    pub completed: bool,
    pub parents: Seq<Seq<char>>,
}

impl View for Lease {
    type V = LeaseModel;

    open spec fn view(&self) -> LeaseModel {
        LeaseModel {
            key: self.lease_key@,
            owner: collections::optional_text(self.lease_owner),
            counter: self.lease_counter,
            checkpoint: collections::optional_text(self.checkpoint),
            completed: self.completed,
            parents: collections::texts(self.parents@),
        }
    }
}

impl Default for Lease {
    fn default() -> (l: Self)
        ensures
            l@ == (LeaseModel {
                key: Seq::empty(),
                owner: None,
                counter: 0,
                checkpoint: None,
                completed: false,
                parents: Seq::empty(),
            }),
    {
        let l = Lease {
            lease_key: String::new(),
            lease_owner: None,
            lease_counter: 0,
            checkpoint: None,
            completed: false,
            parents: Vec::new(),
        };
        assert(l@.key =~= Seq::empty());
        assert(l@.parents =~= Seq::empty());
        l
    }
}

impl Lease {
    /// May another worker take the lease? Yes if nobody owns it, or if its
    /// counter has not advanced since it was last seen.
    pub fn is_takeable(&self, last_seen_counter: u64) -> (r: bool)
        ensures
            r == (self.lease_owner is None || self.lease_counter == last_seen_counter),
    {
        self.lease_owner.is_none() || self.lease_counter == last_seen_counter
    }
}

/// The billing of a lease table that is created.
#[derive(Clone, Copy, Debug, PartialEq, Eq, Structural)]
pub enum LeaseBilling {
    /// On demand.
    PayPerRequest,
    /// Provisioned capacity.
    Provisioned { read_capacity: i64, write_capacity: i64 },
}

impl Default for LeaseBilling {
    fn default() -> (b: Self)
        ensures
            b == LeaseBilling::PayPerRequest,
    {
        LeaseBilling::PayPerRequest
    }
}

/// How a lease table is created. A table that exists is never changed.
#[derive(Clone, Copy, Debug, PartialEq, Eq, Structural)]
pub struct LeaseTableConfig {
    pub billing: LeaseBilling,
    /// Enable point-in-time recovery.
    pub pitr: bool,
}

impl Default for LeaseTableConfig {
    fn default() -> (c: Self)
        ensures
            c == (LeaseTableConfig { billing: LeaseBilling::PayPerRequest, pitr: false }),
    {
        LeaseTableConfig { billing: LeaseBilling::PayPerRequest, pitr: false }
    }
}

/// Why a write did not succeed.
#[derive(Clone, Debug)]
pub enum LeaseError {
    /// The condition failed: another worker owns or advanced the lease.
    Lost,
    /// Throttled: can be tried again.
    Throttled(String),
    Aws(String),
}

/// Why a write did not succeed, with text in place of strings.
pub enum ErrorModel {
    Lost,
    Throttled(Seq<char>),
    Aws(Seq<char>),
}

impl View for LeaseError {
    type V = ErrorModel;

    open spec fn view(&self) -> ErrorModel {
        match self {
            LeaseError::Lost => ErrorModel::Lost,
            LeaseError::Throttled(m) => ErrorModel::Throttled(m@),
            LeaseError::Aws(m) => ErrorModel::Aws(m@),
        }
    }
}

impl LeaseError {
    /// The error in words.
    pub fn to_text(&self) -> (r: String)
        ensures
            r@ == (match self@ {
                ErrorModel::Lost => "lease lost (conditional check failed)"@,
                ErrorModel::Throttled(m) => "throttled: "@ + m,
                ErrorModel::Aws(m) => "aws error: "@ + m,
            }),
    {
        match self {
            LeaseError::Lost => "lease lost (conditional check failed)".to_owned(),
            LeaseError::Throttled(m) => {
                let mut r = "throttled: ".to_owned();
                r.append(m.as_str());
                r
            },
            LeaseError::Aws(m) => {
                let mut r = "aws error: ".to_owned();
                r.append(m.as_str());
                r
            },
        }
    }
}

/// The error code of a failed condition.
pub open spec fn condition_failed() -> Seq<char> {
    "ConditionalCheckFailedException"@
}

/// The error codes of throttling.
pub open spec fn is_throttle_code(code: Seq<char>) -> bool {
    ||| code == "ProvisionedThroughputExceededException"@
    ||| code == "ThrottlingException"@
    ||| code == "RequestLimitExceeded"@
    ||| code == "LimitExceededException"@
}

/// What an error code means: a failed condition is a lost lease, and a
/// throttled request must not be taken for one.
pub open spec fn classified(code: Option<Seq<char>>, message: Seq<char>) -> ErrorModel {
    match code {
        Some(c) => if c == condition_failed() {
            ErrorModel::Lost
        } else if is_throttle_code(c) {
            ErrorModel::Throttled(message)
        } else {
            ErrorModel::Aws(message)
        },
        None => ErrorModel::Aws(message),
    }
}

/// The text of an optional code.
pub open spec fn code_text(code: Option<&str>) -> Option<Seq<char>> {
    match code {
        Some(c) => Some(c@),
        None => None,
    }
}

/// Is it the code of a failed condition?
pub fn is_condition_failure(code: Option<&str>) -> (r: bool)
    ensures
        r == (code_text(code) == Some(condition_failed())),
{
    match code {
        Some(c) => text::same(c, "ConditionalCheckFailedException"),
        None => false,
    }
}

/// Tell what an error code means.
pub fn classify(code: Option<&str>, message: &str) -> (e: LeaseError)
    ensures
        e@ == classified(code_text(code), message@),
{
    if is_condition_failure(code) {
        return LeaseError::Lost;
    }
    match code {
        Some(c) => {
            if text::same(c, "ProvisionedThroughputExceededException") || text::same(
                c,
                "ThrottlingException",
            ) || text::same(c, "RequestLimitExceeded") || text::same(c, "LimitExceededException") {
                LeaseError::Throttled(message.to_owned())
            } else {
                LeaseError::Aws(message.to_owned())
            }
        },
        None => LeaseError::Aws(message.to_owned()),
    }
}

/// Bounded retries of a throttled call: the delay doubles up to a cap.
#[derive(Clone, Copy, Debug, PartialEq, Eq, Structural)]
pub struct ThrottleRetry {
    /// How many attempts were made.
    pub attempts: u32,
    /// How long to wait before the next one.
    pub delay_ms: u64,
}

/// The number of attempts after which a throttled call is given up.
pub const MAX_ATTEMPTS: u32 = 5;

/// The cap of the delay, in milliseconds.
pub const MAX_RETRY_DELAY_MS: u64 = 800;

/// The retries after an attempt, and how long to wait before the next one, if
/// there is a next one.
pub open spec fn retried(r: ThrottleRetry, throttled: bool) -> (ThrottleRetry, Option<u64>) {
    if throttled && r.attempts + 1 < MAX_ATTEMPTS {
        (
            ThrottleRetry {
                attempts: (r.attempts + 1) as u32,
                delay_ms: if 2 * r.delay_ms <= MAX_RETRY_DELAY_MS {
                    (2 * r.delay_ms) as u64
                } else {
                    MAX_RETRY_DELAY_MS
                },
            },
            Some(r.delay_ms),
        )
    } else {
        (r, None)
    }
}

impl ThrottleRetry {
    /// No attempt was made yet.
    pub fn new(first_delay_ms: u64) -> (r: ThrottleRetry)
        ensures
            r == (ThrottleRetry { attempts: 0, delay_ms: first_delay_ms }),
    {
        ThrottleRetry { attempts: 0, delay_ms: first_delay_ms }
    }

    /// The retries of writes to the lease table.
    pub fn for_leases() -> (r: ThrottleRetry)
        ensures
            r == (ThrottleRetry { attempts: 0, delay_ms: 50 }),
    {
        ThrottleRetry::new(50)
    }

    /// Note an attempt, and whether it was throttled. Gives how long to wait
    /// before the next one; `None` if its outcome stands.
    pub fn after_attempt(&mut self, throttled: bool) -> (delay_ms: Option<u64>)
        ensures
            (*final(self), delay_ms) == retried(*old(self), throttled),
    {
        if throttled && self.attempts < MAX_ATTEMPTS - 1 {
            let delay: u64 = self.delay_ms;
            self.attempts = self.attempts + 1;
            self.delay_ms =
            if delay <= MAX_RETRY_DELAY_MS / 2 {
                delay * 2
            } else {
                MAX_RETRY_DELAY_MS
            };
            Some(delay)
        } else {
            None
        }
    }
}

/// The retries after a number of throttled attempts.
pub open spec fn after_throttles(r: ThrottleRetry, n: nat) -> ThrottleRetry
    decreases n,
{
    if n == 0 {
        r
    } else {
        retried(after_throttles(r, (n - 1) as nat), true).0
    }
}

/// A call that is throttled every time is made five times, no more, and an
/// outcome that is not throttling stands at once.
pub proof fn law_retries_are_bounded(first: u64, n: nat)
    ensures
        ({
            let r = after_throttles(ThrottleRetry { attempts: 0, delay_ms: first }, n);
            &&& r.attempts == (if n < MAX_ATTEMPTS {
                n as int
            } else {
                MAX_ATTEMPTS - 1
            })
            &&& n >= MAX_ATTEMPTS - 1 ==> retried(r, true).1 is None
            &&& n < MAX_ATTEMPTS - 1 ==> retried(r, true).1 == Some(r.delay_ms)
            &&& retried(r, false) == (r, None::<u64>)
            &&& n > 0 ==> r.delay_ms <= MAX_RETRY_DELAY_MS
        }),
    decreases n,
{
    if n > 0 {
        law_retries_are_bounded(first, (n - 1) as nat);
    }
}

/// What a write is conditional on.
#[derive(Clone, Debug)]
pub enum Condition {
    /// There is no such row.
    Absent,
    /// The row has this counter.
    CounterIs(u64),
    /// The row has this counter and this owner.
    HeldBy(u64, String),
    /// The row is there and completed.
    Completed,
    /// Nothing.
    Always,
}

/// What a write does.
#[derive(Clone, Debug)]
pub enum Change {
    /// Put a new row: owner, counter, checkpoint, parents.
    Create(Option<String>, u64, Option<String>, Vec<String>),
    /// Set the owner and advance the counter.
    Take(String),
    /// Advance the counter.
    Renew,
    /// Set the checkpoint and advance the counter.
    SaveCheckpoint(String),
    /// Mark the row completed.
    Complete,
    /// Clear the owner and advance the counter.
    Release,
    /// Set the owner and advance the counter of a row that may not exist.
    Beat(String),
    /// Delete the row.
    Delete,
}

/// A conditional write of one row.
#[derive(Clone, Debug)]
pub struct LeaseWrite {
    pub key: String,
    pub condition: Condition,
    pub change: Change,
}

/// A condition, with text in place of strings.
pub enum ConditionModel {
    Absent,
    CounterIs(u64),
    HeldBy(u64, Seq<char>),
    Completed,
    Always,
}

/// A change, with text in place of strings.
pub enum ChangeModel {
    Create(Option<Seq<char>>, u64, Option<Seq<char>>, Seq<Seq<char>>),
    Take(Seq<char>),
    Renew,
    SaveCheckpoint(Seq<char>),
    Complete,
    Release,
    Beat(Seq<char>),
    Delete,
}

/// A write, with text in place of strings.
pub struct WriteModel {
    pub key: Seq<char>,
    pub condition: ConditionModel,
    pub change: ChangeModel,
}

impl View for LeaseWrite {
    type V = WriteModel;

    open spec fn view(&self) -> WriteModel {
        WriteModel {
            key: self.key@,
            condition: match self.condition {
                Condition::Absent => ConditionModel::Absent,
                Condition::CounterIs(c) => ConditionModel::CounterIs(c),
                Condition::HeldBy(c, o) => ConditionModel::HeldBy(c, o@),
                Condition::Completed => ConditionModel::Completed,
                Condition::Always => ConditionModel::Always,
            },
            change: match self.change {
                Change::Create(o, c, p, ps) => ChangeModel::Create(
                    collections::optional_text(o),
                    c,
                    collections::optional_text(p),
                    collections::texts(ps@),
                ),
                Change::Take(o) => ChangeModel::Take(o@),
                Change::Renew => ChangeModel::Renew,
                Change::SaveCheckpoint(s) => ChangeModel::SaveCheckpoint(s@),
                Change::Complete => ChangeModel::Complete,
                Change::Release => ChangeModel::Release,
                Change::Beat(w) => ChangeModel::Beat(w@),
                Change::Delete => ChangeModel::Delete,
            },
        }
    }
}

/// A row of the model of the table.
pub struct Row {
    pub owner: Option<Seq<char>>,
    pub counter: int,
    pub checkpoint: Option<Seq<char>>,
    pub completed: bool,
    pub parents: Seq<Seq<char>>,
}

/// The condition holds of a row that may not exist.
pub open spec fn meets(row: Option<Row>, c: ConditionModel) -> bool {
    match c {
        ConditionModel::Absent => row is None,
        ConditionModel::CounterIs(n) => row matches Some(r) && r.counter == n,
        ConditionModel::HeldBy(n, o) => row matches Some(r) && r.counter == n && r.owner == Some(o),
        ConditionModel::Completed => row matches Some(r) && r.completed,
        ConditionModel::Always => true,
    }
}

/// The row after a change; `None` is a deleted row.
pub open spec fn changed(row: Option<Row>, c: ChangeModel) -> Option<Row> {
    let r = match row {
        Some(r) => r,
        None => Row {
            owner: None,
            counter: 0,
            checkpoint: None,
            completed: false,
            parents: Seq::empty(),
        },
    };
    match c {
        ChangeModel::Create(owner, counter, checkpoint, parents) => Some(
            Row { owner, counter: counter as int, checkpoint, completed: false, parents },
        ),
        ChangeModel::Take(o) => Some(Row { owner: Some(o), counter: r.counter + 1, ..r }),
        ChangeModel::Renew => Some(Row { counter: r.counter + 1, ..r }),
        ChangeModel::SaveCheckpoint(s) => Some(
            Row { checkpoint: Some(s), counter: r.counter + 1, ..r },
        ),
        ChangeModel::Complete => Some(Row { completed: true, ..r }),
        ChangeModel::Release => Some(Row { owner: None, counter: r.counter + 1, ..r }),
        ChangeModel::Beat(w) => Some(Row { owner: Some(w), counter: r.counter + 1, ..r }),
        ChangeModel::Delete => None,
    }
}

/// The row of `key`, if there is one.
pub open spec fn row_of(t: Map<Seq<char>, Row>, key: Seq<char>) -> Option<Row> {
    if t.contains_key(key) {
        Some(t[key])
    } else {
        None
    }
}

/// The table after a write; `None` if its condition fails.
pub open spec fn written(t: Map<Seq<char>, Row>, w: WriteModel) -> Option<Map<Seq<char>, Row>> {
    if meets(row_of(t, w.key), w.condition) {
        match changed(row_of(t, w.key), w.change) {
            Some(r) => Some(t.insert(w.key, r)),
            None => Some(t.remove(w.key)),
        }
    } else {
        None
    }
}

impl LeaseWrite {
    /// Create a lease that this worker owns.
    pub fn create(lease_key: &str, owner: &str) -> (w: LeaseWrite)
        ensures
            w@ == (WriteModel {
                key: lease_key@,
                condition: ConditionModel::Absent,
                change: ChangeModel::Create(Some(owner@), 1, None, Seq::empty()),
            }),
    {
        let parents: Vec<String> = Vec::new();
        assert(collections::texts(parents@) =~= Seq::empty());
        LeaseWrite {
            key: lease_key.to_owned(),
            condition: Condition::Absent,
            change: Change::Create(Some(owner.to_owned()), 1, None, parents),
        }
    }

    /// Claim a lease, if its counter is still the one that was seen.
    pub fn claim(lease_key: &str, owner: &str, seen_counter: u64) -> (w: LeaseWrite)
        ensures
            w@ == (WriteModel {
                key: lease_key@,
                condition: ConditionModel::CounterIs(seen_counter),
                change: ChangeModel::Take(owner@),
            }),
    {
        LeaseWrite {
            key: lease_key.to_owned(),
            condition: Condition::CounterIs(seen_counter),
            change: Change::Take(owner.to_owned()),
        }
    }

    /// Advance the counter of a lease that this worker still holds.
    pub fn renew(lease_key: &str, owner: &str, counter: u64) -> (w: LeaseWrite)
        ensures
            w@ == (WriteModel {
                key: lease_key@,
                condition: ConditionModel::HeldBy(counter, owner@),
                change: ChangeModel::Renew,
            }),
    {
        LeaseWrite {
            key: lease_key.to_owned(),
            condition: Condition::HeldBy(counter, owner.to_owned()),
            change: Change::Renew,
        }
    }

    /// Save a checkpoint on a lease that this worker still holds.
    pub fn checkpoint(lease_key: &str, owner: &str, counter: u64, seq: &str) -> (w: LeaseWrite)
        ensures
            w@ == (WriteModel {
                key: lease_key@,
                condition: ConditionModel::HeldBy(counter, owner@),
                change: ChangeModel::SaveCheckpoint(seq@),
            }),
    {
        LeaseWrite {
            key: lease_key.to_owned(),
            condition: Condition::HeldBy(counter, owner.to_owned()),
            change: Change::SaveCheckpoint(seq.to_owned()),
        }
    }

    /// Advance this worker's heartbeat, creating its row if it is absent.
    pub fn heartbeat(worker: &str) -> (w: LeaseWrite)
        ensures
            w@ == (WriteModel {
                key: coordinator::heartbeat_prefix() + worker@,
                condition: ConditionModel::Always,
                change: ChangeModel::Beat(worker@),
            }),
    {
        LeaseWrite {
            key: heartbeat_key(worker),
            condition: Condition::Always,
            change: Change::Beat(worker.to_owned()),
        }
    }

    /// Mark a shard complete whose lease this worker still holds.
    pub fn mark_complete(lease_key: &str, owner: &str, counter: u64) -> (w: LeaseWrite)
        ensures
            w@ == (WriteModel {
                key: lease_key@,
                condition: ConditionModel::HeldBy(counter, owner@),
                change: ChangeModel::Complete,
            }),
    {
        LeaseWrite {
            key: lease_key.to_owned(),
            condition: Condition::HeldBy(counter, owner.to_owned()),
            change: Change::Complete,
        }
    }

    /// Delete a lease, if it is completed.
    pub fn delete_lease(lease_key: &str) -> (w: LeaseWrite)
        ensures
            w@ == (WriteModel {
                key: lease_key@,
                condition: ConditionModel::Completed,
                change: ChangeModel::Delete,
            }),
    {
        LeaseWrite {
            key: lease_key.to_owned(),
            condition: Condition::Completed,
            change: Change::Delete,
        }
    }

    /// Give up a lease that this worker still holds.
    pub fn release(lease_key: &str, owner: &str, counter: u64) -> (w: LeaseWrite)
        ensures
            w@ == (WriteModel {
                key: lease_key@,
                condition: ConditionModel::HeldBy(counter, owner@),
                change: ChangeModel::Release,
            }),
    {
        LeaseWrite {
            key: lease_key.to_owned(),
            condition: Condition::HeldBy(counter, owner.to_owned()),
            change: Change::Release,
        }
    }

    /// Publish a shard as a lease that nobody owns yet.
    pub fn create_shard_lease(
        lease_key: &str,
        parents: &Vec<String>,
        checkpoint: &Option<String>,
    ) -> (w: LeaseWrite)
        ensures
            w@ == (WriteModel {
                key: lease_key@,
                condition: ConditionModel::Absent,
                change: ChangeModel::Create(
                    None,
                    0,
                    collections::optional_text(*checkpoint),
                    collections::texts(parents@),
                ),
            }),
    {
        LeaseWrite {
            key: lease_key.to_owned(),
            condition: Condition::Absent,
            change: Change::Create(None, 0, clone_optional(checkpoint), clone_strings(parents)),
        }
    }

    /// Bid for leadership: create the lease if it is absent, or take it if its
    /// counter is still the expected one.
    pub fn try_acquire_leadership(lease_key: &str, owner: &str, expected: Option<u64>) -> (w:
        LeaseWrite)
        ensures
            w@ == (match expected {
                None => WriteModel {
                    key: lease_key@,
                    condition: ConditionModel::Absent,
                    change: ChangeModel::Create(Some(owner@), 1, None, Seq::empty()),
                },
                Some(c) => WriteModel {
                    key: lease_key@,
                    condition: ConditionModel::CounterIs(c),
                    change: ChangeModel::Take(owner@),
                },
            }),
    {
        match expected {
            None => LeaseWrite::create(lease_key, owner),
            Some(c) => LeaseWrite::claim(lease_key, owner, c),
        }
    }
}

/// The write advances the counter of the row that it is conditional on.
pub open spec fn is_locked_advance(w: WriteModel, counter: u64) -> bool {
    &&& w.condition == ConditionModel::CounterIs(counter) || (w.condition is HeldBy
        && w.condition->HeldBy_0 == counter)
    &&& w.change is Take || w.change is Renew || w.change is SaveCheckpoint || w.change is Release
}

/// Of two writes that rely on the same counter of a lease, one at most
/// succeeds, whichever comes first.
pub proof fn law_one_writer_wins(
    t: Map<Seq<char>, Row>,
    a: WriteModel,
    b: WriteModel,
    counter: u64,
)
    requires
        a.key == b.key,
        is_locked_advance(a, counter),
        is_locked_advance(b, counter) || b.condition == ConditionModel::CounterIs(counter) || (
        b.condition is HeldBy && b.condition->HeldBy_0 == counter),
        written(t, a) is Some,
    ensures
        written(written(t, a)->0, b) is None,
{
}

/// Once another worker took a lease, nothing that relies on the old hold
/// succeeds: no renewal, no checkpoint, no completion, no release.
pub proof fn law_a_stolen_lease_is_lost(
    t: Map<Seq<char>, Row>,
    key: Seq<char>,
    thief: Seq<char>,
    seen: u64,
    owner: Seq<char>,
    change: ChangeModel,
)
    requires
        t.contains_key(key),
        t[key].counter == seen,
    ensures
        ({
            let steal = WriteModel {
                key,
                condition: ConditionModel::CounterIs(seen),
                change: ChangeModel::Take(thief),
            };
            let held = WriteModel { key, condition: ConditionModel::HeldBy(seen, owner), change };
            &&& written(t, steal) is Some
            &&& written(written(t, steal)->0, held) is None
        }),
{
}

/// A holder that relies on the counter of its last write keeps its lease: the
/// next write succeeds as long as nobody else wrote.
pub proof fn law_a_holder_keeps_its_lease(
    t: Map<Seq<char>, Row>,
    key: Seq<char>,
    owner: Seq<char>,
    counter: u64,
    change: ChangeModel,
)
    requires
        t.contains_key(key),
        t[key].owner == Some(owner),
        t[key].counter == counter,
        counter < u64::MAX,
        change is Renew || change is SaveCheckpoint,
    ensures
        ({
            let first = WriteModel {
                key,
                condition: ConditionModel::HeldBy(counter, owner),
                change,
            };
            &&& written(t, first) is Some
            &&& forall|next: ChangeModel|
                #![trigger written(written(t, first)->0, WriteModel {
                    key,
                    condition: ConditionModel::HeldBy((counter + 1) as u64, owner),
                    change: next,
                })]
                written(
                    written(t, first)->0,
                    WriteModel {
                        key,
                        condition: ConditionModel::HeldBy((counter + 1) as u64, owner),
                        change: next,
                    },
                ) is Some
        }),
{
}

/// The counter of a lease never goes back, and a write touches one row only.
pub proof fn law_counters_only_grow(t: Map<Seq<char>, Row>, w: WriteModel, other: Seq<char>)
    requires
        written(t, w) is Some,
        !(w.change is Create) || w.condition is Absent,
    ensures
        t.contains_key(w.key) && (written(t, w)->0).contains_key(w.key) ==> t[w.key].counter
            <= (written(t, w)->0)[w.key].counter,
        other != w.key ==> row_of(written(t, w)->0, other) == row_of(t, other),
{
}

/// Creating or publishing a lease never touches one that exists.
pub proof fn law_creation_never_overwrites(t: Map<Seq<char>, Row>, w: WriteModel)
    requires
        w.condition is Absent,
        t.contains_key(w.key),
    ensures
        written(t, w) is None,
{
}

/// Only a completed lease is ever deleted.
pub proof fn law_deletes_completed_leases_only(t: Map<Seq<char>, Row>, w: WriteModel)
    requires
        w.condition is Completed,
        w.change is Delete,
        written(t, w) is Some,
    ensures
        t.contains_key(w.key),
        t[w.key].completed,
        written(t, w)->0 == t.remove(w.key),
{
}

/// A released lease is free at once: nobody owns it, and whoever saw its new
/// counter can claim it.
pub proof fn law_a_released_lease_is_free(
    t: Map<Seq<char>, Row>,
    key: Seq<char>,
    owner: Seq<char>,
    counter: u64,
    heir: Seq<char>,
)
    requires
        t.contains_key(key),
        t[key].owner == Some(owner),
        t[key].counter == counter,
        counter < u64::MAX,
    ensures
        ({
            let release = WriteModel {
                key,
                condition: ConditionModel::HeldBy(counter, owner),
                change: ChangeModel::Release,
            };
            let claim = WriteModel {
                key,
                condition: ConditionModel::CounterIs((counter + 1) as u64),
                change: ChangeModel::Take(heir),
            };
            let free = written(t, release)->0;
            &&& written(t, release) is Some
            &&& free[key].owner is None
            &&& written(free, claim) is Some
            &&& (written(free, claim)->0)[key].owner == Some(heir)
            &&& (written(free, claim)->0)[key].checkpoint == t[key].checkpoint
        }),
{
}

/// What each change leaves of a row that was there: what it is for, and nothing
/// else of the row changes.
pub proof fn law_a_change_does_what_it_is_for(r: Row, o: Seq<char>)
    ensures
        ({
            let u = changed(Some(r), ChangeModel::Take(o));
            u is Some && u->0.owner == Some(o) && u->0.counter == r.counter + 1 && u->0.checkpoint
                == r.checkpoint && u->0.completed == r.completed && u->0.parents == r.parents
        }),
        ({
            let u = changed(Some(r), ChangeModel::Renew);
            u is Some && u->0.owner == r.owner && u->0.counter == r.counter + 1 && u->0.checkpoint
                == r.checkpoint && u->0.completed == r.completed && u->0.parents == r.parents
        }),
        ({
            let u = changed(Some(r), ChangeModel::SaveCheckpoint(o));
            u is Some && u->0.owner == r.owner && u->0.counter == r.counter + 1 && u->0.checkpoint
                == Some(o) && u->0.completed == r.completed && u->0.parents == r.parents
        }),
        ({
            let u = changed(Some(r), ChangeModel::Complete);
            u is Some && u->0.owner == r.owner && u->0.counter == r.counter && u->0.checkpoint
                == r.checkpoint && u->0.completed && u->0.parents == r.parents
        }),
        ({
            let u = changed(Some(r), ChangeModel::Release);
            u is Some && u->0.owner is None && u->0.counter == r.counter + 1 && u->0.checkpoint
                == r.checkpoint && u->0.completed == r.completed && u->0.parents == r.parents
        }),
        ({
            let u = changed(Some(r), ChangeModel::Beat(o));
            u is Some && u->0.owner == Some(o) && u->0.counter == r.counter + 1 && u->0.checkpoint
                == r.checkpoint && u->0.completed == r.completed && u->0.parents == r.parents
        }),
        changed(Some(r), ChangeModel::Delete) is None,
{
}

/// A new row is what it was created as, whatever was there.
pub proof fn law_a_created_row_is_as_asked(
    row: Option<Row>,
    owner: Option<Seq<char>>,
    counter: u64,
    checkpoint: Option<Seq<char>>,
    parents: Seq<Seq<char>>,
)
    ensures
        changed(row, ChangeModel::Create(owner, counter, checkpoint, parents)) matches Some(u)
            && u.owner == owner && u.counter == counter && u.checkpoint == checkpoint
            && !u.completed && u.parents == parents,
        changed(None, ChangeModel::Beat(parents[0])) matches Some(u) && u.owner == Some(parents[0])
            && u.counter == 1 && u.checkpoint is None && !u.completed && u.parents.len() == 0,
{
}

/// A write under a lock goes through exactly if the row still has the counter,
/// and the owner if one is asked for, that the writer relies on; it then leaves
/// the changed row, and else nothing changes.
pub proof fn law_a_lock_admits_who_saw_the_last_counter(
    t: Map<Seq<char>, Row>,
    key: Seq<char>,
    counter: u64,
    owner: Seq<char>,
    change: ChangeModel,
)
    requires
        !(change is Delete),
    ensures
        ({
            let held = WriteModel { key, condition: ConditionModel::HeldBy(counter, owner), change };
            let seen = WriteModel { key, condition: ConditionModel::CounterIs(counter), change };
            &&& written(t, held) is Some <==> t.contains_key(key) && t[key].counter == counter
                && t[key].owner == Some(owner)
            &&& written(t, seen) is Some <==> t.contains_key(key) && t[key].counter == counter
            &&& written(t, held) is Some ==> written(t, held)->0 == t.insert(
                key,
                changed(Some(t[key]), change)->0,
            )
            &&& written(t, seen) is Some ==> written(t, seen)->0 == t.insert(
                key,
                changed(Some(t[key]), change)->0,
            )
        }),
{
}

/// What an error code means: a failed condition is a lost lease, the four codes
/// of throttling are throttling, and every other code, or none, is an error of
/// the service. The message is handed on as it is.
pub proof fn law_codes_tell_what_went_wrong(code: Seq<char>, message: Seq<char>)
    ensures
        classified(Some("ConditionalCheckFailedException"@), message) == ErrorModel::Lost,
        classified(Some("ProvisionedThroughputExceededException"@), message)
            == ErrorModel::Throttled(message),
        classified(Some("ThrottlingException"@), message) == ErrorModel::Throttled(message),
        classified(Some("RequestLimitExceeded"@), message) == ErrorModel::Throttled(message),
        classified(Some("LimitExceededException"@), message) == ErrorModel::Throttled(message),
        classified(None, message) == ErrorModel::Aws(message),
        code != "ConditionalCheckFailedException"@ && code
            != "ProvisionedThroughputExceededException"@ && code != "ThrottlingException"@ && code
            != "RequestLimitExceeded"@ && code != "LimitExceededException"@ ==> classified(
            Some(code),
            message,
        ) == ErrorModel::Aws(message),
{
    reveal_strlit("ConditionalCheckFailedException");
    reveal_strlit("ProvisionedThroughputExceededException");
    reveal_strlit("ThrottlingException");
    reveal_strlit("RequestLimitExceeded");
    reveal_strlit("LimitExceededException");
    assert("ConditionalCheckFailedException"@.len() == 31);
    assert("ProvisionedThroughputExceededException"@.len() == 38);
    assert("ThrottlingException"@.len() == 19);
    assert("RequestLimitExceeded"@.len() == 20);
    assert("LimitExceededException"@.len() == 22);
}

/// Each retry waits twice as long as the one before it, but never longer than
/// 800 milliseconds; the fifth attempt is the last.
pub proof fn law_retries_wait_twice_as_long(r: ThrottleRetry)
    ensures
        r.attempts < 4 ==> {
            let (next, delay) = retried(r, true);
            &&& delay == Some(r.delay_ms)
            &&& next.attempts == r.attempts + 1
            &&& r.delay_ms <= 400 ==> next.delay_ms == 2 * r.delay_ms
            &&& r.delay_ms > 400 ==> next.delay_ms == 800
        },
        r.attempts >= 4 ==> retried(r, true).1 is None,
        retried(r, false).1 is None,
{
}

/// A write is what it stands for, with its own key, counters and names.
pub proof fn law_a_write_is_as_it_stands(w: LeaseWrite)
    ensures
        w@.key == w.key@,
        match w.condition {
            Condition::Absent => w@.condition is Absent,
            Condition::CounterIs(c) => w@.condition == ConditionModel::CounterIs(c),
            Condition::HeldBy(c, o) => w@.condition == ConditionModel::HeldBy(c, o@),
            Condition::Completed => w@.condition is Completed,
            Condition::Always => w@.condition is Always,
        },
        match w.change {
            Change::Create(o, c, p, ps) => w@.change is Create && w@.change->Create_0 == (match o {
                Some(x) => Some(x@),
                None => None,
            }) && w@.change->Create_1 == c && w@.change->Create_2 == (match p {
                Some(x) => Some(x@),
                None => None,
            }) && w@.change->Create_3.len() == ps@.len() && forall|i: int|
                0 <= i < ps@.len() ==> w@.change->Create_3[i] == (#[trigger] ps@[i])@,
            Change::Take(o) => w@.change == ChangeModel::Take(o@),
            Change::Renew => w@.change is Renew,
            Change::SaveCheckpoint(s) => w@.change == ChangeModel::SaveCheckpoint(s@),
            Change::Complete => w@.change is Complete,
            Change::Release => w@.change is Release,
            Change::Beat(x) => w@.change == ChangeModel::Beat(x@),
            Change::Delete => w@.change is Delete,
        },
{
}

/// A lease and an error are what they stand for.
pub proof fn law_leases_and_errors_are_as_they_stand(l: Lease, e: LeaseError, i: int)
    ensures
        l@.key == l.lease_key@,
        l@.owner == (match l.lease_owner {
            Some(o) => Some(o@),
            None => None,
        }),
        l@.counter == l.lease_counter,
        l@.checkpoint == (match l.checkpoint {
            Some(c) => Some(c@),
            None => None,
        }),
        l@.completed == l.completed,
        l@.parents.len() == l.parents@.len(),
        0 <= i < l.parents@.len() ==> l@.parents[i] == l.parents@[i]@,
        match e {
            LeaseError::Lost => e@ is Lost,
            LeaseError::Throttled(m) => e@ == ErrorModel::Throttled(m@),
            LeaseError::Aws(m) => e@ == ErrorModel::Aws(m@),
        },
{
}

} // verus!
