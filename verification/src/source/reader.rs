//! One round of reading a shard: which iterator to use, what to do when a call
//! fails, and what a page of records becomes.
//!
//! The iterator that a read hands back is kept and used for the next read, as
//! long as that continues from the same position. An iterator that expired, or
//! a position that was trimmed, is recovered from; throttling is waited out.

use vstd::prelude::*;

use crate::collections::{clone_optional, StringMap};
use crate::collections;
use crate::lease_table::ThrottleRetry;
use crate::lease_table;
use crate::position::{Position, StartPosition};
use crate::position;
use crate::scheduler::{Batch, Record, RecordBatch, RecordModel};
use crate::scheduler;
use crate::text;

verus! {

/// Bring a batch-size limit into the range that the service accepts.
pub fn clamp_max_records(n: i32) -> (r: i32)
    ensures
        1 <= r <= 1000,
        1 <= n <= 1000 ==> r == n,
        n < 1 ==> r == 1,
        n > 1000 ==> r == 1000,
{
    if n < 1 {
        1
    } else if n > 1000 {
        1000
    } else {
        n
    }
}

/// The text of an optional literal or slice.
pub open spec fn slice_text(s: Option<&str>) -> Option<Seq<char>> {
    match s {
        Some(x) => Some(x@),
        None => None,
    }
}

/// Does a kept iterator continue the requested read? Only if it is at exactly
/// the requested position.
pub fn cursor_continues(cursor_after: Option<&str>, requested: Option<&str>) -> (r: bool)
    ensures
        r == (slice_text(cursor_after) == slice_text(requested)),
{
    match (cursor_after, requested) {
        (Some(a), Some(b)) => text::same(a, b),
        (None, None) => true,
        _ => false,
    }
}

/// The position after a read: the last record, or unchanged without one.
pub open spec fn advanced(requested: Option<Seq<char>>, last: Option<Seq<char>>) -> Option<
    Seq<char>,
> {
    match last {
        Some(s) => Some(s),
        None => requested,
    }
}

/// The position after a read.
pub fn advanced_after(requested: Option<&str>, last_seq: Option<&str>) -> (r: Option<String>)
    ensures
        collections::optional_text(r) == advanced(slice_text(requested), slice_text(last_seq)),
{
    match last_seq {
        Some(s) => Some(s.to_owned()),
        None => match requested {
            Some(s) => Some(s.to_owned()),
            None => None,
        },
    }
}

/// The error is one that a fresh iterator recovers from.
pub open spec fn recoverable(message: Seq<char>) -> bool {
    ||| text::has_substring(message, "TrimmedDataAccessException"@)
    ||| text::has_substring(message, "ExpiredIteratorException"@)
    ||| text::has_substring(message, "ResourceNotFoundException"@)
}

/// Can a fresh iterator recover from the error?
pub fn is_recoverable(message: &str) -> (r: bool)
    ensures
        r == recoverable(message@),
{
    text::contains(message, "TrimmedDataAccessException") || text::contains(
        message,
        "ExpiredIteratorException",
    ) || text::contains(message, "ResourceNotFoundException")
}

/// The error is one of throttling or capacity.
pub open spec fn throttling(message: Seq<char>) -> bool {
    ||| text::has_substring(message, "ProvisionedThroughputExceededException"@)
    ||| text::has_substring(message, "ThrottlingException"@)
    ||| text::has_substring(message, "RequestLimitExceeded"@)
    ||| text::has_substring(message, "LimitExceededException"@)
}

/// Is the error one of throttling or capacity?
pub fn is_throttling(message: &str) -> (r: bool)
    ensures
        r == throttling(message@),
{
    text::contains(message, "ProvisionedThroughputExceededException") || text::contains(
        message,
        "ThrottlingException",
    ) || text::contains(message, "RequestLimitExceeded") || text::contains(
        message,
        "LimitExceededException",
    )
}

/// A kept iterator, and the position that it continues from.
pub struct Cursor {
    after: Option<String>,
    iterator: String,
}

/// A kept iterator, with text in place of strings.
pub struct CursorModel {
    pub after: Option<Seq<char>>,
    pub iterator: Seq<char>,
}

impl View for Cursor {
    type V = CursorModel;

    closed spec fn view(&self) -> CursorModel {
        CursorModel { after: collections::optional_text(self.after), iterator: self.iterator@ }
    }
}

/// The kept iterators of all shards.
pub struct Cursors {
    cursors: StringMap<Cursor>,
}

impl View for Cursors {
    type V = Map<Seq<char>, CursorModel>;

    closed spec fn view(&self) -> Map<Seq<char>, CursorModel> {
        self.cursors@.map_values(|c: Cursor| c@)
    }
}

/// The iterator to use again for `shard` at `after`, if there is one.
pub open spec fn reusable(
    m: Map<Seq<char>, CursorModel>,
    shard: Seq<char>,
    after: Option<Seq<char>>,
) -> Option<Seq<char>> {
    if m.contains_key(shard) && m[shard].after == after {
        Some(m[shard].iterator)
    } else {
        None
    }
}

/// The kept iterators after a read of `shard`: the end of a shard leaves none.
pub open spec fn stored(
    m: Map<Seq<char>, CursorModel>,
    shard: Seq<char>,
    after: Option<Seq<char>>,
    iterator: Option<Seq<char>>,
) -> Map<Seq<char>, CursorModel> {
    match iterator {
        Some(it) => m.insert(shard, CursorModel { after, iterator: it }),
        None => m.remove(shard),
    }
}

/// A reference to the text of an optional string.
fn as_slice(s: &Option<String>) -> (r: Option<&str>)
    ensures
        slice_text(r) == collections::optional_text(*s),
{
    match s {
        Some(x) => Some(x.as_str()),
        None => None,
    }
}

impl Cursors {
    /// No iterator is kept.
    pub fn new() -> (c: Cursors)
        ensures
            c@ == Map::<Seq<char>, CursorModel>::empty(),
    {
        let c = Cursors { cursors: StringMap::new() };
        assert(c@ =~= Map::empty());
        c
    }

    /// The iterator to use again, if one continues from exactly that position.
    pub fn cached_iterator(&self, shard: &str, after: Option<&str>) -> (r: Option<String>)
        ensures
            collections::optional_text(r) == reusable(self@, shard@, slice_text(after)),
    {
        match self.cursors.get(shard) {
            Some(c) => if cursor_continues(as_slice(&c.after), after) {
                Some(c.iterator.clone())
            } else {
                None
            },
            None => None,
        }
    }

    /// Keep an iterator for the next read, or drop it at the end of the shard.
    pub fn store_cursor(&mut self, shard: &str, after: Option<String>, iterator: Option<String>)
        ensures
            final(self)@ == stored(
                old(self)@,
                shard@,
                collections::optional_text(after),
                collections::optional_text(iterator),
            ),
    {
        match iterator {
            Some(it) => {
                self.cursors.insert(shard.to_owned(), Cursor { after, iterator: it });
                assert(self@ =~= stored(
                    old(self)@,
                    shard@,
                    collections::optional_text(after),
                    Some(it@),
                ));
            },
            None => {
                self.drop_cursor(shard);
            },
        }
    }

    /// Forget the iterator of a shard.
    pub fn drop_cursor(&mut self, shard: &str)
        ensures
            final(self)@ == old(self)@.remove(shard@),
    {
        self.cursors.remove(shard);
        assert(self@ =~= old(self)@.remove(shard@));
    }
}

/// A record of a page as it comes from the service.
#[derive(Clone, Debug)]
pub struct PageRecord {
    /// The change part; a record without it is skipped.
    pub has_change: bool,
    pub sequence_number: Option<String>,
    /// When it was created, in milliseconds since the epoch.
    pub created_ms: Option<i64>,
    /// The encoded change record.
    pub payload: Vec<u8>,
}

/// A page of records.
#[derive(Clone, Debug)]
pub struct Page {
    pub records: Vec<PageRecord>,
    /// The iterator for the next read; none at the end of the shard.
    pub next_iterator: Option<String>,
}

/// A record of a page, with text in place of strings.
pub struct PageRecordModel {
    pub has_change: bool,
    pub seq: Option<Seq<char>>,
    pub created_ms: Option<i64>,
    pub payload: Seq<u8>,
}

/// A page, with text in place of strings.
pub struct PageModel {
    pub records: Seq<PageRecordModel>,
    pub next_iterator: Option<Seq<char>>,
}

impl View for PageRecord {
    type V = PageRecordModel;

    open spec fn view(&self) -> PageRecordModel {
        PageRecordModel {
            has_change: self.has_change,
            seq: collections::optional_text(self.sequence_number),
            created_ms: self.created_ms,
            payload: self.payload@,
        }
    }
}

impl View for Page {
    type V = PageModel;

    open spec fn view(&self) -> PageModel {
        PageModel {
            records: self.records@.map_values(|r: PageRecord| r@),
            next_iterator: collections::optional_text(self.next_iterator),
        }
    }
}

/// The record is delivered: it has a change and a sequence number.
pub open spec fn is_delivered(r: PageRecordModel) -> bool {
    r.has_change && (r.seq matches Some(s) && s.len() > 0)
}

/// The records of a page that are delivered.
pub open spec fn delivered_records(shard: Seq<char>, s: Seq<PageRecordModel>) -> Seq<RecordModel> {
    s.filter(|r: PageRecordModel| is_delivered(r)).map_values(
        |r: PageRecordModel| RecordModel { shard, seq: r.seq->0, data: r.payload },
    )
}

/// When the newest delivered record of a page was created: the last one wins,
/// since records arrive in order.
pub open spec fn newest_creation(s: Seq<PageRecordModel>) -> Option<i64>
    decreases s.len(),
{
    if s.len() == 0 {
        None
    } else if is_delivered(s.last()) && s.last().created_ms is Some {
        s.last().created_ms
    } else {
        newest_creation(s.drop_last())
    }
}

/// The consumer lag: never negative, to absorb clock skew. Without a clock it
/// is zero.
pub open spec fn lag_of(newest: Option<i64>, now_ms: Option<i64>) -> Option<i64> {
    match newest {
        None => None,
        Some(created) => match now_ms {
            None => Some(0),
            Some(now) => Some(
                if now <= created {
                    0
                } else if now - created <= i64::MAX {
                    (now - created) as i64
                } else {
                    i64::MAX
                },
            ),
        },
    }
}

/// The batch that a page becomes.
pub open spec fn batch_of(shard: Seq<char>, p: PageModel, now_ms: Option<i64>) -> Batch {
    Batch {
        records: delivered_records(shard, p.records),
        shard_end: p.next_iterator is None,
        lag: lag_of(newest_creation(p.records), now_ms),
    }
}

/// The sequence number of the last record, if there is one.
pub open spec fn last_seq(s: Seq<RecordModel>) -> Option<Seq<char>> {
    if s.len() > 0 {
        Some(s.last().seq)
    } else {
        None
    }
}

/// The empty batch of a shard that has ended.
pub open spec fn ended_batch() -> Batch {
    Batch { records: Seq::empty(), shard_end: true, lag: None }
}

fn empty_end() -> (b: RecordBatch)
    ensures
        b@ == ended_batch(),
{
    let records: Vec<Record> = Vec::new();
    assert(scheduler::record_models(records@) =~= Seq::empty());
    RecordBatch { records, shard_end: true, millis_behind_latest: None }
}

fn copy_payload(b: &Vec<u8>) -> (r: Vec<u8>)
    ensures
        r@ == b@,
{
    let mut r: Vec<u8> = Vec::new();
    let mut i: usize = 0;
    while i < b.len()
        invariant
            i <= b.len(),
            r@ == b@.take(i as int),
        decreases b.len() - i,
    {
        r.push(b[i]);
        assert(b@.take(i + 1) =~= b@.take(i as int).push(b@[i as int]));
        i = i + 1;
    }
    assert(b@.take(i as int) =~= b@);
    r
}

fn lag(newest: Option<i64>, now_ms: Option<i64>) -> (r: Option<i64>)
    ensures
        r == lag_of(newest, now_ms),
{
    match newest {
        None => None,
        Some(created) => match now_ms {
            None => Some(0),
            Some(now) => {
                let d: i128 = (now as i128) - (created as i128);
                if d <= 0 {
                    Some(0)
                } else if d <= i64::MAX as i128 {
                    Some(d as i64)
                } else {
                    Some(i64::MAX)
                }
            },
        },
    }
}

/// Turn a page into the batch that is delivered.
pub fn page_batch(shard: &str, page: &Page, now_ms: Option<i64>) -> (b: RecordBatch)
    ensures
        b@ == batch_of(shard@, page@, now_ms),
{
    let ghost t = page@.records;
    let ghost keep = |r: PageRecordModel| is_delivered(r);
    let ghost image = |r: PageRecordModel|
        RecordModel { shard: shard@, seq: r.seq->0, data: r.payload };
    let mut records: Vec<Record> = Vec::new();
    let mut newest: Option<i64> = None;
    let mut i: usize = 0;
    assert(scheduler::record_models(records@) =~= t.take(0).filter(keep).map_values(image)) by {
        reveal(Seq::filter);
    }
    while i < page.records.len()
        invariant
            i <= page.records.len(),
            t == page@.records,
            keep == (|r: PageRecordModel| is_delivered(r)),
            image == (|r: PageRecordModel|
                RecordModel { shard: shard@, seq: r.seq->0, data: r.payload }),
            scheduler::record_models(records@) == t.take(i as int).filter(keep).map_values(image),
            newest == newest_creation(t.take(i as int)),
        decreases page.records.len() - i,
    {
        proof {
            collections::lemma_filter_step(t, i as int, keep);
            assert(t.take(i + 1).drop_last() =~= t.take(i as int));
        }
        let r = &page.records[i];
        assert(t[i as int] == r@);
        if r.has_change {
            if let Some(seq) = clone_optional(&r.sequence_number) {
                if seq.as_str().unicode_len() > 0 {
                    if r.created_ms.is_some() {
                        newest = r.created_ms;
                    }
                    let record = Record {
                        shard_id: shard.to_owned(),
                        seq,
                        data: copy_payload(&r.payload),
                    };
                    let ghost before = records@;
                    records.push(record);
                    assert(scheduler::record_models(records@) =~= scheduler::record_models(
                        before,
                    ).push(image(t[i as int])));
                    assert(t.take(i + 1).filter(keep).map_values(image) =~= t.take(i as int).filter(
                        keep,
                    ).map_values(image).push(image(t[i as int])));
                }
            }
        }
        i = i + 1;
    }
    assert(t.take(i as int) =~= t);
    RecordBatch {
        records,
        shard_end: page.next_iterator.is_none(),
        millis_behind_latest: lag(newest, now_ms),
    }
}

/// The kind of iterator to ask for.
#[derive(Clone, Debug)]
pub enum IteratorRequest {
    TrimHorizon,
    Latest,
    /// Strictly after this sequence number.
    AfterSequenceNumber(String),
}

impl View for IteratorRequest {
    type V = Position;

    open spec fn view(&self) -> Position {
        match self {
            IteratorRequest::TrimHorizon => Position::TrimHorizon,
            IteratorRequest::Latest => Position::Latest,
            IteratorRequest::AfterSequenceNumber(s) => Position::After(s@),
        }
    }
}

/// The iterator to ask for to read after a checkpoint.
pub fn iterator_request(after: Option<&str>) -> (r: IteratorRequest)
    ensures
        r@ == position::decoded(slice_text(after)),
{
    match StartPosition::from_checkpoint(after) {
        StartPosition::After(s) => IteratorRequest::AfterSequenceNumber(s),
        StartPosition::Latest => IteratorRequest::Latest,
        StartPosition::TrimHorizon => IteratorRequest::TrimHorizon,
    }
}

/// What a round asks for.
pub enum ReadAction {
    /// Get an iterator.
    Derive(IteratorRequest),
    /// Read with an iterator.
    GetRecords(String),
    /// Wait this long, then read with the iterator.
    WaitThenGetRecords(u64, String),
    /// The round is over.
    Finish(RecordBatch),
    /// The round failed with this error.
    Fail(String),
}

/// What happened since the last step.
pub enum ReadEvent {
    /// The iterator; none at the end of the shard.
    Derived(Option<String>),
    DeriveFailed(String),
    Read(Page),
    ReadFailed(String),
}

/// Where a round stands.
pub enum ReadStage {
    /// An iterator is being derived for the requested position.
    Deriving,
    /// That position was trimmed: one is being derived for the beginning.
    DerivingFromStart,
    /// The shard is being read with this iterator.
    Reading(String, ThrottleRetry),
    /// The iterator was refused: a fresh one is being derived.
    Rederiving,
    /// The position was trimmed too: one is being derived for the beginning.
    RederivingFromStart,
    /// The shard is being read with the fresh iterator.
    Rereading,
    Finished,
}

/// One round of reading a shard.
pub struct ReadRound {
    shard: String,
    after: Option<String>,
    stage: ReadStage,
}

/// Where a round stands, with text in place of strings.
pub enum ReadStageModel {
    Deriving,
    DerivingFromStart,
    Reading(Seq<char>, ThrottleRetry),
    Rederiving,
    RederivingFromStart,
    Rereading,
    Finished,
}

/// The state of a round.
pub struct RoundModel {
    pub shard: Seq<char>,
    pub after: Option<Seq<char>>,
    pub stage: ReadStageModel,
}

impl View for ReadStage {
    type V = ReadStageModel;

    open spec fn view(&self) -> ReadStageModel {
        match self {
            ReadStage::Deriving => ReadStageModel::Deriving,
            ReadStage::DerivingFromStart => ReadStageModel::DerivingFromStart,
            ReadStage::Reading(it, r) => ReadStageModel::Reading(it@, *r),
            ReadStage::Rederiving => ReadStageModel::Rederiving,
            ReadStage::RederivingFromStart => ReadStageModel::RederivingFromStart,
            ReadStage::Rereading => ReadStageModel::Rereading,
            ReadStage::Finished => ReadStageModel::Finished,
        }
    }
}

impl View for ReadRound {
    type V = RoundModel;

    closed spec fn view(&self) -> RoundModel {
        RoundModel {
            shard: self.shard@,
            after: collections::optional_text(self.after),
            stage: self.stage@,
        }
    }
}

/// An action, with text in place of strings.
pub enum ReadActionModel {
    Derive(Position),
    GetRecords(Seq<char>),
    WaitThenGetRecords(u64, Seq<char>),
    Finish(Batch),
    Fail(Seq<char>),
}

impl View for ReadAction {
    type V = ReadActionModel;

    open spec fn view(&self) -> ReadActionModel {
        match self {
            ReadAction::Derive(r) => ReadActionModel::Derive(r@),
            ReadAction::GetRecords(it) => ReadActionModel::GetRecords(it@),
            ReadAction::WaitThenGetRecords(ms, it) => ReadActionModel::WaitThenGetRecords(*ms, it@),
            ReadAction::Finish(b) => ReadActionModel::Finish(b@),
            ReadAction::Fail(m) => ReadActionModel::Fail(m@),
        }
    }
}

/// An event, with text in place of strings.
pub enum ReadEventModel {
    Derived(Option<Seq<char>>),
    DeriveFailed(Seq<char>),
    Read(PageModel),
    ReadFailed(Seq<char>),
}

impl View for ReadEvent {
    type V = ReadEventModel;

    open spec fn view(&self) -> ReadEventModel {
        match self {
            ReadEvent::Derived(it) => ReadEventModel::Derived(collections::optional_text(*it)),
            ReadEvent::DeriveFailed(m) => ReadEventModel::DeriveFailed(m@),
            ReadEvent::Read(p) => ReadEventModel::Read(p@),
            ReadEvent::ReadFailed(m) => ReadEventModel::ReadFailed(m@),
        }
    }
}

/// The retries of a read.
pub open spec fn first_try() -> ThrottleRetry {
    ThrottleRetry { attempts: 0, delay_ms: 100 }
}

/// How a round starts: with a kept iterator that continues from the requested
/// position, else by deriving one for it.
pub open spec fn round_start(
    shard: Seq<char>,
    after: Option<Seq<char>>,
    cursors: Map<Seq<char>, CursorModel>,
) -> (RoundModel, ReadActionModel) {
    match reusable(cursors, shard, after) {
        Some(it) => (
            RoundModel { shard, after, stage: ReadStageModel::Reading(it, first_try()) },
            ReadActionModel::GetRecords(it),
        ),
        None => (
            RoundModel { shard, after, stage: ReadStageModel::Deriving },
            ReadActionModel::Derive(position::decoded(after)),
        ),
    }
}

/// A round, the kept iterators and the next action, after an event.
pub struct RoundStep {
    pub round: RoundModel,
    pub cursors: Map<Seq<char>, CursorModel>,
    pub action: ReadActionModel,
}

/// The page ends the round: its records are delivered, and the next iterator is
/// kept at the position of the last one.
pub open spec fn concluded(
    done: RoundModel,
    cursors: Map<Seq<char>, CursorModel>,
    p: PageModel,
    now_ms: Option<i64>,
) -> RoundStep {
    let b = batch_of(done.shard, p, now_ms);
    RoundStep {
        round: done,
        cursors: stored(
            cursors,
            done.shard,
            advanced(done.after, last_seq(b.records)),
            p.next_iterator,
        ),
        action: ReadActionModel::Finish(b),
    }
}

/// One step of a round.
pub open spec fn round_step(
    m: RoundModel,
    cursors: Map<Seq<char>, CursorModel>,
    e: ReadEventModel,
    now_ms: Option<i64>,
) -> RoundStep {
    let done = RoundModel { stage: ReadStageModel::Finished, ..m };
    let ended = RoundStep {
        round: done,
        cursors,
        action: ReadActionModel::Finish(ended_batch()),
    };
    let reading = |it: Seq<char>|
        RoundStep {
            round: RoundModel { stage: ReadStageModel::Reading(it, first_try()), ..m },
            cursors,
            action: ReadActionModel::GetRecords(it),
        };
    let rereading = |it: Seq<char>|
        RoundStep {
            round: RoundModel { stage: ReadStageModel::Rereading, ..m },
            cursors,
            action: ReadActionModel::GetRecords(it),
        };
    let failed = |message: Seq<char>|
        RoundStep { round: done, cursors, action: ReadActionModel::Fail(message) };
    match (m.stage, e) {
        (ReadStageModel::Deriving, ReadEventModel::Derived(Some(it))) => reading(it),
        (ReadStageModel::Deriving, ReadEventModel::Derived(None)) => RoundStep {
            cursors: cursors.remove(m.shard),
            ..ended
        },
        (ReadStageModel::Deriving, ReadEventModel::DeriveFailed(message)) => if recoverable(
            message,
        ) && m.after is Some {
            RoundStep {
                round: RoundModel { stage: ReadStageModel::DerivingFromStart, ..m },
                cursors,
                action: ReadActionModel::Derive(Position::TrimHorizon),
            }
        } else {
            failed(message)
        },
        (ReadStageModel::DerivingFromStart, ReadEventModel::Derived(Some(it))) => reading(it),
        (ReadStageModel::DerivingFromStart, ReadEventModel::Derived(None)) => ended,
        (ReadStageModel::DerivingFromStart, ReadEventModel::DeriveFailed(message)) => failed(
            message,
        ),
        (ReadStageModel::Reading(_, _), ReadEventModel::Read(p)) => concluded(
            done,
            cursors,
            p,
            now_ms,
        ),
        (ReadStageModel::Reading(it, retry), ReadEventModel::ReadFailed(message)) => {
            let (next, delay) = lease_table::retried(retry, throttling(message));
            match delay {
                Some(ms) => RoundStep {
                    round: RoundModel { stage: ReadStageModel::Reading(it, next), ..m },
                    cursors,
                    action: ReadActionModel::WaitThenGetRecords(ms, it),
                },
                None => if recoverable(message) {
                    RoundStep {
                        round: RoundModel { stage: ReadStageModel::Rederiving, ..m },
                        cursors: cursors.remove(m.shard),
                        action: ReadActionModel::Derive(position::decoded(m.after)),
                    }
                } else {
                    failed(message)
                },
            }
        },
        (ReadStageModel::Rederiving, ReadEventModel::Derived(Some(it))) => rereading(it),
        (ReadStageModel::Rederiving, ReadEventModel::Derived(None)) => ended,
        (ReadStageModel::Rederiving, ReadEventModel::DeriveFailed(message)) => if recoverable(
            message,
        ) && m.after is Some {
            RoundStep {
                round: RoundModel { stage: ReadStageModel::RederivingFromStart, ..m },
                cursors,
                action: ReadActionModel::Derive(Position::TrimHorizon),
            }
        } else {
            failed(message)
        },
        (ReadStageModel::RederivingFromStart, ReadEventModel::Derived(Some(it))) => rereading(it),
        (ReadStageModel::RederivingFromStart, ReadEventModel::Derived(None)) => ended,
        (ReadStageModel::RederivingFromStart, ReadEventModel::DeriveFailed(message)) => failed(
            message,
        ),
        (ReadStageModel::Rereading, ReadEventModel::Read(p)) => concluded(done, cursors, p, now_ms),
        (ReadStageModel::Rereading, ReadEventModel::ReadFailed(message)) => failed(message),
        _ => failed("unexpected answer"@),
    }
}

impl ReadRound {
    /// Start a round of reading `shard` after `after`.
    pub fn get_records(shard: &str, after: Option<&str>, cursors: &Cursors) -> (r: (
        ReadRound,
        ReadAction,
    ))
        ensures
            (r.0@, r.1@) == round_start(shard@, slice_text(after), cursors@),
    {
        let stored_after: Option<String> = match after {
            Some(s) => Some(s.to_owned()),
            None => None,
        };
        match cursors.cached_iterator(shard, after) {
            Some(it) => {
                let stage = ReadStage::Reading(it.clone(), ThrottleRetry::new(100));
                (
                    ReadRound { shard: shard.to_owned(), after: stored_after, stage },
                    ReadAction::GetRecords(it),
                )
            },
            None => (
                ReadRound {
                    shard: shard.to_owned(),
                    after: stored_after,
                    stage: ReadStage::Deriving,
                },
                ReadAction::Derive(iterator_request(after)),
            ),
        }
    }

    fn conclude(&mut self, page: &Page, cursors: &mut Cursors, now_ms: Option<i64>) -> (a:
        ReadAction)
        requires
            old(self)@.stage is Finished,
        ensures
            ({
                let s = concluded(old(self)@, old(cursors)@, page@, now_ms);
                &&& final(self)@ == s.round
                &&& final(cursors)@ == s.cursors
                &&& a@ == s.action
            }),
    {
        let batch = page_batch(self.shard.as_str(), page, now_ms);
        let ghost models = scheduler::record_models(batch.records@);
        let last: Option<&str> = if batch.records.len() > 0 {
            assert(models.last() == batch.records@.last()@);
            Some(batch.records[batch.records.len() - 1].seq.as_str())
        } else {
            None
        };
        assert(slice_text(last) == last_seq(models));
        let position = advanced_after(as_slice(&self.after), last);
        cursors.store_cursor(self.shard.as_str(), position, clone_optional(&page.next_iterator));
        ReadAction::Finish(batch)
    }

    /// Advance the round by one event. `now_ms` is the wall clock, if it can be
    /// read.
    pub fn step(&mut self, event: ReadEvent, cursors: &mut Cursors, now_ms: Option<i64>) -> (a:
        ReadAction)
        ensures
            ({
                let s = round_step(old(self)@, old(cursors)@, event@, now_ms);
                &&& final(self)@ == s.round
                &&& final(cursors)@ == s.cursors
                &&& a@ == s.action
            }),
    {
        let mut stage = ReadStage::Finished;
        std::mem::swap(&mut stage, &mut self.stage);
        match (stage, event) {
            (ReadStage::Deriving, ReadEvent::Derived(it)) => match it {
                Some(it) => {
                    self.stage = ReadStage::Reading(it.clone(), ThrottleRetry::new(100));
                    ReadAction::GetRecords(it)
                },
                None => {
                    cursors.drop_cursor(self.shard.as_str());
                    ReadAction::Finish(empty_end())
                },
            },
            (ReadStage::Deriving, ReadEvent::DeriveFailed(message)) => {
                if is_recoverable(message.as_str()) && self.after.is_some() {
                    self.stage = ReadStage::DerivingFromStart;
                    ReadAction::Derive(IteratorRequest::TrimHorizon)
                } else {
                    ReadAction::Fail(message)
                }
            },
            (ReadStage::DerivingFromStart, ReadEvent::Derived(it)) => match it {
                Some(it) => {
                    self.stage = ReadStage::Reading(it.clone(), ThrottleRetry::new(100));
                    ReadAction::GetRecords(it)
                },
                None => ReadAction::Finish(empty_end()),
            },
            (ReadStage::DerivingFromStart, ReadEvent::DeriveFailed(message)) => ReadAction::Fail(
                message,
            ),
            (ReadStage::Reading(_, _), ReadEvent::Read(page)) => self.conclude(
                &page,
                cursors,
                now_ms,
            ),
            (ReadStage::Reading(it, retry), ReadEvent::ReadFailed(message)) => {
                let mut retry = retry;
                match retry.after_attempt(is_throttling(message.as_str())) {
                    Some(ms) => {
                        self.stage = ReadStage::Reading(it.clone(), retry);
                        ReadAction::WaitThenGetRecords(ms, it)
                    },
                    None => {
                        if is_recoverable(message.as_str()) {
                            cursors.drop_cursor(self.shard.as_str());
                            self.stage = ReadStage::Rederiving;
                            ReadAction::Derive(iterator_request(as_slice(&self.after)))
                        } else {
                            ReadAction::Fail(message)
                        }
                    },
                }
            },
            (ReadStage::Rederiving, ReadEvent::Derived(it)) => match it {
                Some(it) => {
                    self.stage = ReadStage::Rereading;
                    ReadAction::GetRecords(it)
                },
                None => ReadAction::Finish(empty_end()),
            },
            (ReadStage::Rederiving, ReadEvent::DeriveFailed(message)) => {
                if is_recoverable(message.as_str()) && self.after.is_some() {
                    self.stage = ReadStage::RederivingFromStart;
                    ReadAction::Derive(IteratorRequest::TrimHorizon)
                } else {
                    ReadAction::Fail(message)
                }
            },
            (ReadStage::RederivingFromStart, ReadEvent::Derived(it)) => match it {
                Some(it) => {
                    self.stage = ReadStage::Rereading;
                    ReadAction::GetRecords(it)
                },
                None => ReadAction::Finish(empty_end()),
            },
            (ReadStage::RederivingFromStart, ReadEvent::DeriveFailed(message)) => ReadAction::Fail(
                message,
            ),
            (ReadStage::Rereading, ReadEvent::Read(page)) => self.conclude(&page, cursors, now_ms),
            (ReadStage::Rereading, ReadEvent::ReadFailed(message)) => ReadAction::Fail(message),
            _ => ReadAction::Fail("unexpected answer".to_owned()),
        }
    }
}

/// The number of answers that a round still waits for at most.
pub open spec fn answers_left(stage: ReadStageModel) -> nat {
    match stage {
        ReadStageModel::Deriving => 10,
        ReadStageModel::DerivingFromStart => 9,
        ReadStageModel::Reading(_, r) => if r.attempts <= 4 {
            (8 - r.attempts) as nat
        } else {
            4
        },
        ReadStageModel::Rederiving => 3,
        ReadStageModel::RederivingFromStart => 2,
        ReadStageModel::Rereading => 1,
        ReadStageModel::Finished => 0,
    }
}

/// A round ends: it waits for ten answers at most. So throttling is retried,
/// and a stale iterator is replaced, a bounded number of times.
pub proof fn law_a_round_ends(
    shard: Seq<char>,
    after: Option<Seq<char>>,
    m: RoundModel,
    cursors: Map<Seq<char>, CursorModel>,
    e: ReadEventModel,
    now_ms: Option<i64>,
)
    ensures
        answers_left(round_start(shard, after, cursors).0.stage) <= 10,
        ({
            let s = round_step(m, cursors, e, now_ms);
            &&& m.stage is Finished || answers_left(s.round.stage) < answers_left(m.stage)
            &&& s.round.stage is Finished <==> s.action is Finish || s.action is Fail
        }),
{
}

/// A poll that continues from where the last one ended reads with the iterator
/// that it left: no iterator is derived.
pub proof fn law_polls_thread_the_iterator(
    m: RoundModel,
    cursors: Map<Seq<char>, CursorModel>,
    p: PageModel,
    now_ms: Option<i64>,
)
    requires
        m.stage is Reading || m.stage is Rereading,
        p.next_iterator is Some,
    ensures
        ({
            let s = round_step(m, cursors, ReadEventModel::Read(p), now_ms);
            let position = advanced(m.after, last_seq(delivered_records(m.shard, p.records)));
            round_start(m.shard, position, s.cursors).1 == ReadActionModel::GetRecords(
                p.next_iterator->0,
            )
        }),
{
}

/// A read from any other position than that of the kept iterator derives a
/// fresh one.
pub proof fn law_repositioning_derives_afresh(
    shard: Seq<char>,
    after: Option<Seq<char>>,
    cursors: Map<Seq<char>, CursorModel>,
)
    requires
        cursors.contains_key(shard) ==> cursors[shard].after != after,
    ensures
        round_start(shard, after, cursors).1 == ReadActionModel::Derive(position::decoded(after)),
{
}

/// A round that finds the end of a shard by reading keeps no iterator for it,
/// and says so.
pub proof fn law_the_end_of_a_shard_keeps_no_iterator(
    m: RoundModel,
    cursors: Map<Seq<char>, CursorModel>,
    p: PageModel,
    now_ms: Option<i64>,
)
    requires
        m.stage is Reading || m.stage is Rereading,
        p.next_iterator is None,
    ensures
        ({
            let s = round_step(m, cursors, ReadEventModel::Read(p), now_ms);
            &&& !s.cursors.contains_key(m.shard)
            &&& s.action matches ReadActionModel::Finish(b) && b.shard_end
        }),
{
}

/// A round leaves the kept iterators of other shards alone.
pub proof fn law_a_round_touches_one_shard(
    m: RoundModel,
    cursors: Map<Seq<char>, CursorModel>,
    e: ReadEventModel,
    now_ms: Option<i64>,
    other: Seq<char>,
)
    requires
        other != m.shard,
    ensures
        ({
            let s = round_step(m, cursors, e, now_ms);
            &&& s.round.shard == m.shard
            &&& s.round.after == m.after
            &&& s.cursors.contains_key(other) == cursors.contains_key(other)
            &&& cursors.contains_key(other) ==> s.cursors[other] == cursors[other]
        }),
{
}

/// A stale iterator or a trimmed position is recovered from: the stale iterator
/// is dropped and a fresh one asked for, at the requested position after a
/// failed read, and at the beginning after a failed derivation, be it the first
/// of the round or the one after a failed read.
pub proof fn law_stale_iterators_are_replaced(
    m: RoundModel,
    cursors: Map<Seq<char>, CursorModel>,
    message: Seq<char>,
    now_ms: Option<i64>,
)
    requires
        recoverable(message),
        !throttling(message),
    ensures
        m.stage is Reading ==> {
            let s = round_step(m, cursors, ReadEventModel::ReadFailed(message), now_ms);
            &&& s.action == ReadActionModel::Derive(position::decoded(m.after))
            &&& !s.cursors.contains_key(m.shard)
        },
        (m.stage is Deriving || m.stage is Rederiving) && m.after is Some ==> {
            let s = round_step(m, cursors, ReadEventModel::DeriveFailed(message), now_ms);
            s.action == ReadActionModel::Derive(Position::TrimHorizon)
        },
{
}

/// The lag is never negative.
pub proof fn law_lag_is_never_negative(newest: Option<i64>, now_ms: Option<i64>)
    ensures
        lag_of(newest, now_ms) matches Some(ms) ==> ms >= 0,
{
}

/// The record has a change part and a sequence number that is not empty.
pub open spec fn is_numbered(r: PageRecord) -> bool {
    r.has_change && (match r.sequence_number {
        Some(s) => s@.len() > 0,
        None => false,
    })
}

/// A page with one more record becomes a batch with one more record, with the
/// number and the payload of that record, exactly if the record has a change and
/// a number that is not empty, however long. A page without records becomes a
/// batch without records. The batch is the end of the shard exactly if the page
/// has no next iterator.
pub proof fn law_a_page_is_delivered_record_by_record(
    shard: Seq<char>,
    p: Page,
    q: Page,
    r: PageRecord,
    now_ms: Option<i64>,
)
    requires
        q.records@ == p.records@.push(r),
    ensures
        p.records@.len() == 0 ==> batch_of(shard, p@, now_ms).records.len() == 0,
        is_numbered(r) ==> batch_of(shard, q@, now_ms).records == batch_of(
            shard,
            p@,
            now_ms,
        ).records.push(
            RecordModel { shard, seq: r.sequence_number->0@, data: r.payload@ },
        ),
        !is_numbered(r) ==> batch_of(shard, q@, now_ms).records == batch_of(
            shard,
            p@,
            now_ms,
        ).records,
        batch_of(shard, q@, now_ms).shard_end <==> q.next_iterator is None,
{
    reveal(Seq::filter);
    assert(q@.records.drop_last() =~= p@.records);
    assert(q@.records.last() == r@);
    let image = |x: PageRecordModel| RecordModel { shard, seq: x.seq->0, data: x.payload };
    let a = p@.records.filter(|x: PageRecordModel| is_delivered(x));
    assert(a.push(r@).map_values(image) =~= a.map_values(image).push(image(r@)));
}

/// The number of records before the `i`-th that have a change and a number.
pub open spec fn numbered_before(s: Seq<PageRecord>, i: int) -> int
    decreases i,
{
    if i <= 0 {
        0
    } else {
        numbered_before(s, i - 1) + (if is_numbered(s[i - 1]) {
            1int
        } else {
            0int
        })
    }
}

proof fn lemma_numbered_models(shard: Seq<char>, s: Seq<PageRecord>, i: int)
    requires
        0 <= i <= s.len(),
    ensures
        ({
            let b = delivered_records(shard, s.take(i).map_values(|r: PageRecord| r@));
            &&& b.len() == numbered_before(s, i)
            &&& forall|k: int|
                0 <= k < i && is_numbered(#[trigger] s[k]) ==> 0 <= numbered_before(s, k) < b.len()
                    && b[numbered_before(s, k)] == (RecordModel {
                    shard,
                    seq: s[k].sequence_number->0@,
                    data: s[k].payload@,
                })
        }),
    decreases i,
{
    reveal(Seq::filter);
    let models = |n: int| s.take(n).map_values(|r: PageRecord| r@);
    let image = |x: PageRecordModel| RecordModel { shard, seq: x.seq->0, data: x.payload };
    let keep = |x: PageRecordModel| is_delivered(x);
    if i > 0 {
        lemma_numbered_models(shard, s, i - 1);
        assert(models(i).drop_last() =~= models(i - 1));
        assert(models(i).last() == s[i - 1]@);
        let a = models(i - 1).filter(keep);
        assert(a.push(s[i - 1]@).map_values(image) =~= a.map_values(image).push(image(s[i - 1]@)));
    } else {
        assert(models(0) =~= Seq::empty());
    }
}

/// Every record of a page that has a change and a number is in the batch, with
/// its own number and payload, at the place that the order of the page gives it;
/// and the batch holds nothing else.
pub proof fn law_every_numbered_record_is_delivered_in_order(
    shard: Seq<char>,
    page: Page,
    now_ms: Option<i64>,
)
    ensures
        batch_of(shard, page@, now_ms).records.len() == numbered_before(
            page.records@,
            page.records@.len() as int,
        ),
        forall|k: int|
            0 <= k < page.records@.len() && is_numbered(#[trigger] page.records@[k]) ==> {
                let at = numbered_before(page.records@, k);
                &&& 0 <= at < batch_of(shard, page@, now_ms).records.len()
                &&& batch_of(shard, page@, now_ms).records[at].shard == shard
                &&& batch_of(shard, page@, now_ms).records[at].seq
                    == page.records@[k].sequence_number->0@
                &&& batch_of(shard, page@, now_ms).records[at].data == page.records@[k].payload@
            },
{
    let n = page.records@.len() as int;
    lemma_numbered_models(shard, page.records@, n);
    assert(page.records@.take(n) =~= page.records@);
}

/// The lag of a batch is how long before `now_ms` its last dated record was
/// created; it is zero if that is not in the past or there is no clock, and there
/// is none without a dated record.
pub proof fn law_the_lag_dates_from_the_last_dated_record(
    shard: Seq<char>,
    p: Page,
    q: Page,
    r: PageRecord,
    now_ms: Option<i64>,
)
    requires
        q.records@ == p.records@.push(r),
    ensures
        p.records@.len() == 0 ==> batch_of(shard, p@, now_ms).lag is None,
        !is_numbered(r) || r.created_ms is None ==> batch_of(shard, q@, now_ms).lag == batch_of(
            shard,
            p@,
            now_ms,
        ).lag,
        is_numbered(r) && r.created_ms is Some ==> {
            let lag = batch_of(shard, q@, now_ms).lag;
            &&& lag is Some
            &&& now_ms is None ==> lag->0 == 0
            &&& now_ms matches Some(now) ==> {
                &&& now <= r.created_ms->0 ==> lag->0 == 0
                &&& r.created_ms->0 <= now <= r.created_ms->0 + i64::MAX ==> lag->0 == now
                    - r.created_ms->0
                &&& now > r.created_ms->0 + i64::MAX ==> lag->0 == i64::MAX
            }
        },
{
    assert(q@.records.drop_last() =~= p@.records);
    assert(q@.records.last() == r@);
}

/// What a page leaves for the next poll: its next iterator, at the number of the
/// last record that was delivered, or at the position of this poll if none was.
/// The next poll uses that iterator from exactly that position, and derives one
/// from any other.
pub proof fn law_the_next_poll_continues_behind_the_last_record(
    m: RoundModel,
    cursors: Map<Seq<char>, CursorModel>,
    p: PageModel,
    now_ms: Option<i64>,
    after: Option<Seq<char>>,
)
    requires
        m.stage is Reading || m.stage is Rereading,
    ensures
        ({
            let s = round_step(m, cursors, ReadEventModel::Read(p), now_ms);
            let next = round_start(m.shard, after, s.cursors).1;
            &&& s.action matches ReadActionModel::Finish(b) && {
                let here = if b.records.len() > 0 {
                    Some(b.records[b.records.len() - 1].seq)
                } else {
                    m.after
                };
                &&& b == batch_of(m.shard, p, now_ms)
                &&& p.next_iterator is Some && after == here ==> next
                    == ReadActionModel::GetRecords(p.next_iterator->0)
                &&& p.next_iterator is None || after != here ==> next is Derive
            }
        }),
{
}

/// Where a derived iterator starts: at the beginning without a checkpoint, at
/// the tip for the mark of the tip, and strictly after any other checkpoint.
pub proof fn law_a_round_starts_where_the_checkpoint_says(
    shard: Seq<char>,
    cursors: Map<Seq<char>, CursorModel>,
    seq: Seq<char>,
)
    requires
        !cursors.contains_key(shard),
        seq != "LATEST"@,
    ensures
        round_start(shard, None, cursors).1 == ReadActionModel::Derive(Position::TrimHorizon),
        round_start(shard, Some("LATEST"@), cursors).1 == ReadActionModel::Derive(
            Position::Latest,
        ),
        round_start(shard, Some(seq), cursors).1 == ReadActionModel::Derive(Position::After(seq)),
{
}

/// Once an iterator was derived, the shard is read with it; a derivation without
/// an iterator is the end of the shard, and nothing is delivered.
pub proof fn law_a_derived_iterator_is_read(
    m: RoundModel,
    cursors: Map<Seq<char>, CursorModel>,
    it: Seq<char>,
    now_ms: Option<i64>,
)
    requires
        m.stage is Deriving || m.stage is DerivingFromStart || m.stage is Rederiving
            || m.stage is RederivingFromStart,
    ensures
        round_step(m, cursors, ReadEventModel::Derived(Some(it)), now_ms).action
            == ReadActionModel::GetRecords(it),
        round_step(m, cursors, ReadEventModel::Derived(None), now_ms).action matches
            ReadActionModel::Finish(b) && b.shard_end && b.records.len() == 0 && b.lag is None,
{
}

/// A throttled read is made again with the same iterator, after 100, 200, 400
/// and 800 milliseconds; then its error stands.
pub proof fn law_throttled_reads_are_repeated(
    shard: Seq<char>,
    after: Option<Seq<char>>,
    cursors: Map<Seq<char>, CursorModel>,
    it: Seq<char>,
    message: Seq<char>,
    now_ms: Option<i64>,
)
    requires
        throttling(message),
        !recoverable(message),
    ensures
        ({
            let m0 = RoundModel { shard, after, stage: ReadStageModel::Deriving };
            let e = ReadEventModel::ReadFailed(message);
            let s0 = round_step(m0, cursors, ReadEventModel::Derived(Some(it)), now_ms);
            let s1 = round_step(s0.round, s0.cursors, e, now_ms);
            let s2 = round_step(s1.round, s1.cursors, e, now_ms);
            let s3 = round_step(s2.round, s2.cursors, e, now_ms);
            let s4 = round_step(s3.round, s3.cursors, e, now_ms);
            let s5 = round_step(s4.round, s4.cursors, e, now_ms);
            &&& s1.action == ReadActionModel::WaitThenGetRecords(100, it)
            &&& s2.action == ReadActionModel::WaitThenGetRecords(200, it)
            &&& s3.action == ReadActionModel::WaitThenGetRecords(400, it)
            &&& s4.action == ReadActionModel::WaitThenGetRecords(800, it)
            &&& s5.action == ReadActionModel::Fail(message)
        }),
{
}

/// An error that is neither throttling nor recoverable ends the round at once,
/// and is handed on as it is.
pub proof fn law_other_errors_end_the_round(
    m: RoundModel,
    cursors: Map<Seq<char>, CursorModel>,
    message: Seq<char>,
    now_ms: Option<i64>,
)
    requires
        !throttling(message),
        !recoverable(message),
    ensures
        m.stage is Reading || m.stage is Rereading ==> round_step(
            m,
            cursors,
            ReadEventModel::ReadFailed(message),
            now_ms,
        ).action == ReadActionModel::Fail(message),
        m.stage is Deriving || m.stage is Rederiving ==> round_step(
            m,
            cursors,
            ReadEventModel::DeriveFailed(message),
            now_ms,
        ).action == ReadActionModel::Fail(message),
{
}

/// The errors that a fresh iterator recovers from, and those of throttling, are
/// told by the code that they name somewhere.
pub proof fn law_errors_are_told_by_their_code(message: Seq<char>, a: Seq<char>, b: Seq<char>)
    ensures
        recoverable(a + "TrimmedDataAccessException"@ + b),
        recoverable(a + "ExpiredIteratorException"@ + b),
        recoverable(a + "ResourceNotFoundException"@ + b),
        throttling(a + "ProvisionedThroughputExceededException"@ + b),
        throttling(a + "ThrottlingException"@ + b),
        throttling(a + "RequestLimitExceeded"@ + b),
        throttling(a + "LimitExceededException"@ + b),
        recoverable(message) ==> exists|x: Seq<char>, y: Seq<char>|
            message == #[trigger] (x + "TrimmedDataAccessException"@ + y) || message == (x
                + "ExpiredIteratorException"@ + y) || message == (x + "ResourceNotFoundException"@
                + y),
        throttling(message) ==> exists|x: Seq<char>, y: Seq<char>|
            message == #[trigger] (x + "ProvisionedThroughputExceededException"@ + y) || message
                == (x + "ThrottlingException"@ + y) || message == (x + "RequestLimitExceeded"@ + y)
                || message == (x + "LimitExceededException"@ + y),
{
    lemma_names(a, "TrimmedDataAccessException"@, b);
    lemma_names(a, "ExpiredIteratorException"@, b);
    lemma_names(a, "ResourceNotFoundException"@, b);
    lemma_names(a, "ProvisionedThroughputExceededException"@, b);
    lemma_names(a, "ThrottlingException"@, b);
    lemma_names(a, "RequestLimitExceeded"@, b);
    lemma_names(a, "LimitExceededException"@, b);
    if recoverable(message) {
        let (x, y) = if text::has_substring(message, "TrimmedDataAccessException"@) {
            lemma_named(message, "TrimmedDataAccessException"@)
        } else if text::has_substring(message, "ExpiredIteratorException"@) {
            lemma_named(message, "ExpiredIteratorException"@)
        } else {
            lemma_named(message, "ResourceNotFoundException"@)
        };
        assert(message == (x + "TrimmedDataAccessException"@ + y) || message == (x
            + "ExpiredIteratorException"@ + y) || message == (x + "ResourceNotFoundException"@ + y));
    }
    if throttling(message) {
        let (x, y) = if text::has_substring(message, "ProvisionedThroughputExceededException"@) {
            lemma_named(message, "ProvisionedThroughputExceededException"@)
        } else if text::has_substring(message, "ThrottlingException"@) {
            lemma_named(message, "ThrottlingException"@)
        } else if text::has_substring(message, "RequestLimitExceeded"@) {
            lemma_named(message, "RequestLimitExceeded"@)
        } else {
            lemma_named(message, "LimitExceededException"@)
        };
        assert(message == (x + "ProvisionedThroughputExceededException"@ + y) || message == (x
            + "ThrottlingException"@ + y) || message == (x + "RequestLimitExceeded"@ + y)
            || message == (x + "LimitExceededException"@ + y));
    }
}

proof fn lemma_names(a: Seq<char>, code: Seq<char>, b: Seq<char>)
    ensures
        text::has_substring(a + code + b, code),
{
    let m = a + code + b;
    assert(m.subrange(a.len() as int, a.len() as int + code.len()) =~= code);
    assert(text::occurs_at(m, code, a.len() as int));
}

proof fn lemma_named(m: Seq<char>, code: Seq<char>) -> (r: (Seq<char>, Seq<char>))
    requires
        text::has_substring(m, code),
    ensures
        m == r.0 + code + r.1,
{
    let at = choose|at: int| text::occurs_at(m, code, at);
    let r = (m.subrange(0, at), m.subrange(at + code.len(), m.len() as int));
    assert(m =~= r.0 + m.subrange(at, at + code.len()) + r.1);
    r
}

/// Actions and events of a round are what they stand for.
pub proof fn law_actions_and_events_are_as_they_stand(a: ReadAction, e: ReadEvent)
    ensures
        match a {
            ReadAction::Derive(IteratorRequest::TrimHorizon) => a@ == ReadActionModel::Derive(
                Position::TrimHorizon,
            ),
            ReadAction::Derive(IteratorRequest::Latest) => a@ == ReadActionModel::Derive(
                Position::Latest,
            ),
            ReadAction::Derive(IteratorRequest::AfterSequenceNumber(s)) => a@
                == ReadActionModel::Derive(Position::After(s@)),
            ReadAction::GetRecords(it) => a@ == ReadActionModel::GetRecords(it@),
            ReadAction::WaitThenGetRecords(ms, it) => a@ == ReadActionModel::WaitThenGetRecords(
                ms,
                it@,
            ),
            ReadAction::Finish(b) => a@ == ReadActionModel::Finish(b@),
            ReadAction::Fail(m) => a@ == ReadActionModel::Fail(m@),
        },
        match e {
            ReadEvent::Derived(None) => e@ == ReadEventModel::Derived(None),
            ReadEvent::Derived(Some(it)) => e@ == ReadEventModel::Derived(Some(it@)),
            ReadEvent::DeriveFailed(m) => e@ == ReadEventModel::DeriveFailed(m@),
            ReadEvent::Read(p) => e@ == ReadEventModel::Read(p@),
            ReadEvent::ReadFailed(m) => e@ == ReadEventModel::ReadFailed(m@),
        },
{
}

/// What is read with a derived iterator is delivered, whichever way the iterator
/// was derived; and a round has one new start from its position and one from the
/// beginning of the shard: what fails after that ends it, with its error.
pub proof fn law_a_round_has_one_new_start(
    m: RoundModel,
    cursors: Map<Seq<char>, CursorModel>,
    it: Seq<char>,
    p: PageModel,
    message: Seq<char>,
    now_ms: Option<i64>,
)
    ensures
        m.stage is Deriving || m.stage is DerivingFromStart || m.stage is Rederiving
            || m.stage is RederivingFromStart ==> {
            let s = round_step(m, cursors, ReadEventModel::Derived(Some(it)), now_ms);
            &&& s.cursors == cursors
            &&& round_step(s.round, s.cursors, ReadEventModel::Read(p), now_ms).action
                == ReadActionModel::Finish(batch_of(m.shard, p, now_ms))
        },
        m.stage is DerivingFromStart || m.stage is RederivingFromStart || ((m.stage is Deriving
            || m.stage is Rederiving) && m.after is None) ==> round_step(
            m,
            cursors,
            ReadEventModel::DeriveFailed(message),
            now_ms,
        ).action == ReadActionModel::Fail(message),
        m.stage is Rederiving || m.stage is RederivingFromStart ==> {
            let s = round_step(m, cursors, ReadEventModel::Derived(Some(it)), now_ms);
            round_step(s.round, s.cursors, ReadEventModel::ReadFailed(message), now_ms).action
                == ReadActionModel::Fail(message)
        },
        m.stage is Deriving ==> !round_step(
            m,
            cursors,
            ReadEventModel::Derived(None),
            now_ms,
        ).cursors.contains_key(m.shard),
{
}

/// A throttled read with a kept iterator, or with one derived from the beginning,
/// is made again just like one with an iterator that was derived at first.
pub proof fn law_every_first_read_is_repeated_alike(
    shard: Seq<char>,
    after: Option<Seq<char>>,
    kept: Map<Seq<char>, CursorModel>,
    cursors: Map<Seq<char>, CursorModel>,
    it: Seq<char>,
    now_ms: Option<i64>,
)
    requires
        kept.contains_key(shard),
        kept[shard].after == after,
        kept[shard].iterator == it,
    ensures
        ({
            let first = RoundModel { shard, after, stage: ReadStageModel::Deriving };
            let again = RoundModel { shard, after, stage: ReadStageModel::DerivingFromStart };
            let e = ReadEventModel::Derived(Some(it));
            &&& round_start(shard, after, kept).1 == ReadActionModel::GetRecords(it)
            &&& round_start(shard, after, kept).0 == round_step(first, cursors, e, now_ms).round
            &&& round_step(again, cursors, e, now_ms).round == round_step(
                first,
                cursors,
                e,
                now_ms,
            ).round
        }),
{
}

} // verus!
