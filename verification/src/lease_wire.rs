//! How lease writes are worded for DynamoDB, how rows are read back, and what
//! the answers mean.

use vstd::prelude::*;

use crate::collections::clone_optional;
use crate::collections;
use crate::lease_table::{
    classify, is_condition_failure, Change, ChangeModel, Condition, ConditionModel, ErrorModel, Lease,
    LeaseError, LeaseModel, LeaseWrite, Row, WriteModel,
};
use crate::lease_table;
use crate::record::{AttrModel, AttrValue, Item};
use crate::record;
use crate::text;

verus! {

/// The attribute that holds the key of a row.
pub const LEASE_KEY: &'static str = "leaseKey";

/// The text of the attribute that holds the key of a row.
pub open spec fn key_attribute() -> Seq<char> {
    "leaseKey"@
}

/// What addresses the row of `key`: the key under its attribute, and nothing
/// else.
pub open spec fn row_address(key: Seq<char>) -> Map<Seq<char>, AttrModel> {
    Map::<Seq<char>, AttrModel>::empty().insert(key_attribute(), AttrModel::S(key))
}

/// What addresses the row of a lease, to read, change or delete it.
pub fn row_key(lease_key: &str) -> (r: Item)
    ensures
        record::attributes(r@) == row_address(lease_key@),
{
    let mut m = Item::new();
    m.insert(LEASE_KEY.to_owned(), AttrValue::S(lease_key.to_owned()));
    m
}

/// The text attribute `name` of an item, if there is one of that type.
pub open spec fn text_attribute(m: Map<Seq<char>, AttrModel>, name: Seq<char>) -> Option<Seq<char>> {
    if m.contains_key(name) {
        match m[name] {
            AttrModel::S(s) => Some(s),
            _ => None,
        }
    } else {
        None
    }
}

/// The number attribute `name` of an item, if there is one of that type that
/// is an unsigned 64-bit integer.
pub open spec fn number_attribute(m: Map<Seq<char>, AttrModel>, name: Seq<char>) -> Option<int> {
    if m.contains_key(name) {
        match m[name] {
            AttrModel::N(n) => text::unsigned_value(n, u64::MAX as int),
            _ => None,
        }
    } else {
        None
    }
}

/// The texts of a list, without what is no text.
pub open spec fn list_texts(l: Seq<AttrModel>) -> Seq<Seq<char>>
    decreases l.len(),
{
    if l.len() == 0 {
        Seq::empty()
    } else {
        match l.last() {
            AttrModel::S(s) => list_texts(l.drop_last()).push(s),
            _ => list_texts(l.drop_last()),
        }
    }
}

/// The lease that the attributes of a row stand for. Attributes that are
/// missing, or of another type, have their default.
pub open spec fn lease_of(m: Map<Seq<char>, AttrModel>) -> LeaseModel {
    LeaseModel {
        key: match text_attribute(m, key_attribute()) {
            Some(s) => s,
            None => Seq::empty(),
        },
        owner: text_attribute(m, "leaseOwner"@),
        counter: match number_attribute(m, "leaseCounter"@) {
            Some(n) => n as u64,
            None => 0,
        },
        checkpoint: text_attribute(m, "checkpoint"@),
        completed: m.contains_key("completed"@) && m["completed"@] == AttrModel::Bool(true),
        parents: if m.contains_key("parentShardIds"@) {
            match m["parentShardIds"@] {
                AttrModel::L(l) => list_texts(l),
                _ => Seq::empty(),
            }
        } else {
            Seq::empty()
        },
    }
}

fn read_text(item: &Item, name: &str) -> (r: Option<String>)
    ensures
        collections::optional_text(r) == text_attribute(record::attributes(item@), name@),
{
    match item.get(name) {
        Some(v) => match v {
            AttrValue::S(s) => Some(s.clone()),
            _ => None,
        },
        None => None,
    }
}

fn read_number(item: &Item, name: &str) -> (r: Option<u64>)
    ensures
        match r {
            Some(n) => number_attribute(record::attributes(item@), name@) == Some(n as int),
            None => number_attribute(record::attributes(item@), name@) is None,
        },
{
    match item.get(name) {
        Some(v) => match v {
            AttrValue::N(n) => text::parse_unsigned(n.as_str(), u64::MAX),
            _ => None,
        },
        None => None,
    }
}

fn read_texts(l: &Vec<AttrValue>) -> (r: Vec<String>)
    ensures
        collections::texts(r@) == list_texts(record::attr_models(l@)),
{
    let ghost t = record::attr_models(l@);
    let mut r: Vec<String> = Vec::new();
    let mut i: usize = 0;
    proof {
        record::lemma_attr_models(l@);
    }
    assert(collections::texts(r@) =~= list_texts(t.take(0)));
    while i < l.len()
        invariant
            i <= l.len(),
            t == record::attr_models(l@),
            t.len() == l.len(),
            forall|k: int| 0 <= k < l.len() ==> #[trigger] t[k] == l@[k]@,
            collections::texts(r@) == list_texts(t.take(i as int)),
        decreases l.len() - i,
    {
        assert(t.take(i + 1).drop_last() =~= t.take(i as int));
        assert(t[i as int] == l@[i as int]@);
        match &l[i] {
            AttrValue::S(s) => {
                let ghost before = r@;
                r.push(s.clone());
                assert(collections::texts(r@) =~= collections::texts(before).push(s@));
            },
            _ => {},
        }
        i = i + 1;
    }
    assert(t.take(i as int) =~= t);
    r
}

/// Read a lease from the attributes of its row.
pub fn item_to_lease(item: &Item) -> (l: Lease)
    ensures
        l@ == lease_of(record::attributes(item@)),
{
    let lease_key = match read_text(item, LEASE_KEY) {
        Some(s) => s,
        None => {
            let s = String::new();
            assert(s@ =~= Seq::empty());
            s
        },
    };
    let lease_counter: u64 = match read_number(item, "leaseCounter") {
        Some(n) => n,
        None => 0,
    };
    let completed = match item.get("completed") {
        Some(v) => match v {
            AttrValue::Bool(b) => *b,
            _ => false,
        },
        None => false,
    };
    let mut parents: Vec<String> = Vec::new();
    assert(collections::texts(parents@) =~= Seq::empty());
    match item.get("parentShardIds") {
        Some(v) => match v {
            AttrValue::L(l) => {
                parents = read_texts(l);
            },
            _ => {},
        },
        None => {},
    }
    Lease {
        lease_key,
        lease_owner: read_text(item, "leaseOwner"),
        lease_counter,
        checkpoint: read_text(item, "checkpoint"),
        completed,
        parents,
    }
}

/// The wording of a condition.
pub open spec fn condition_text(c: ConditionModel) -> Option<Seq<char>> {
    match c {
        ConditionModel::Absent => Some("attribute_not_exists(leaseKey)"@),
        ConditionModel::CounterIs(_) => Some("leaseCounter = :c"@),
        ConditionModel::HeldBy(_, _) => Some("leaseCounter = :c AND leaseOwner = :o"@),
        ConditionModel::Completed => Some("attribute_exists(leaseKey) AND completed = :t"@),
        ConditionModel::Always => None,
    }
}

/// The wording of a change, if it updates a row in place.
pub open spec fn update_text(c: ChangeModel) -> Option<Seq<char>> {
    match c {
        ChangeModel::Create(_, _, _, _) => None,
        ChangeModel::Take(_) => Some("SET leaseOwner = :o, leaseCounter = leaseCounter + :one"@),
        ChangeModel::Renew => Some("SET leaseCounter = leaseCounter + :one"@),
        ChangeModel::SaveCheckpoint(_) => Some(
            "SET checkpoint = :cp, leaseCounter = leaseCounter + :one"@,
        ),
        ChangeModel::Complete => Some("SET completed = :t"@),
        ChangeModel::Release => Some("REMOVE leaseOwner SET leaseCounter = leaseCounter + :one"@),
        ChangeModel::Beat(_) => Some("SET leaseOwner = :w ADD leaseCounter :one"@),
        ChangeModel::Delete => None,
    }
}

/// The values that the wording of a condition refers to.
pub open spec fn condition_values(c: ConditionModel) -> Map<Seq<char>, AttrModel> {
    let none = Map::<Seq<char>, AttrModel>::empty();
    match c {
        ConditionModel::CounterIs(n) => none.insert(
            ":c"@,
            AttrModel::N(text::decimal_text(n as nat)),
        ),
        ConditionModel::HeldBy(n, o) => none.insert(
            ":c"@,
            AttrModel::N(text::decimal_text(n as nat)),
        ).insert(":o"@, AttrModel::S(o)),
        ConditionModel::Completed => none.insert(":t"@, AttrModel::Bool(true)),
        _ => none,
    }
}

/// All values that the wording of a write refers to.
pub open spec fn write_values(w: WriteModel) -> Map<Seq<char>, AttrModel> {
    let v = condition_values(w.condition);
    let one = AttrModel::N(text::decimal_text(1));
    match w.change {
        ChangeModel::Take(o) => v.insert(":o"@, AttrModel::S(o)).insert(":one"@, one),
        ChangeModel::Renew => v.insert(":one"@, one),
        ChangeModel::SaveCheckpoint(s) => v.insert(":cp"@, AttrModel::S(s)).insert(":one"@, one),
        ChangeModel::Complete => v.insert(":t"@, AttrModel::Bool(true)),
        ChangeModel::Release => v.insert(":one"@, one),
        ChangeModel::Beat(x) => v.insert(":w"@, AttrModel::S(x)).insert(":one"@, one),
        _ => v,
    }
}

/// Some texts as a list of attribute values.
pub open spec fn text_list(s: Seq<Seq<char>>) -> Seq<AttrModel> {
    s.map_values(|t: Seq<char>| AttrModel::S(t))
}

/// The attributes of a new row: those without contents are left out.
pub open spec fn new_row(
    key: Seq<char>,
    owner: Option<Seq<char>>,
    counter: u64,
    checkpoint: Option<Seq<char>>,
    parents: Seq<Seq<char>>,
) -> Map<Seq<char>, AttrModel> {
    let m = Map::<Seq<char>, AttrModel>::empty().insert(key_attribute(), AttrModel::S(key)).insert(
        "leaseCounter"@,
        AttrModel::N(text::decimal_text(counter as nat)),
    );
    let m = match owner {
        Some(o) => m.insert("leaseOwner"@, AttrModel::S(o)),
        None => m,
    };
    let m = match checkpoint {
        Some(c) => m.insert("checkpoint"@, AttrModel::S(c)),
        None => m,
    };
    if parents.len() > 0 {
        m.insert("parentShardIds"@, AttrModel::L(text_list(parents)))
    } else {
        m
    }
}

/// The text of an optional literal.
pub open spec fn literal_text(s: Option<&'static str>) -> Option<Seq<char>> {
    match s {
        Some(x) => Some(x@),
        None => None,
    }
}

fn list_value(v: &Vec<String>) -> (r: AttrValue)
    ensures
        r@ == AttrModel::L(text_list(collections::texts(v@))),
{
    let ghost t = collections::texts(v@);
    let ghost image = |x: Seq<char>| AttrModel::S(x);
    let mut l: Vec<AttrValue> = Vec::new();
    let mut i: usize = 0;
    assert(record::attr_models(l@) =~= t.take(0).map_values(image));
    while i < v.len()
        invariant
            i <= v.len(),
            t == collections::texts(v@),
            image == (|x: Seq<char>| AttrModel::S(x)),
            record::attr_models(l@) == t.take(i as int).map_values(image),
        decreases v.len() - i,
    {
        proof {
            collections::lemma_map_step(t, i as int, image);
        }
        assert(t[i as int] == v@[i as int]@);
        let ghost before = l@;
        l.push(AttrValue::S(v[i].clone()));
        assert(l@.drop_last() =~= before);
        assert(record::attr_model(l@.last()) == AttrModel::S(v@[i as int]@));
        i = i + 1;
    }
    assert(t.take(i as int) =~= t);
    AttrValue::L(l)
}

impl LeaseWrite {
    /// The condition expression.
    pub fn condition_expression(&self) -> (r: Option<&'static str>)
        ensures
            literal_text(r) == condition_text(self@.condition),
    {
        match &self.condition {
            Condition::Absent => Some("attribute_not_exists(leaseKey)"),
            Condition::CounterIs(_) => Some("leaseCounter = :c"),
            Condition::HeldBy(_, _) => Some("leaseCounter = :c AND leaseOwner = :o"),
            Condition::Completed => Some("attribute_exists(leaseKey) AND completed = :t"),
            Condition::Always => None,
        }
    }

    /// The update expression, if the write updates a row in place.
    pub fn update_expression(&self) -> (r: Option<&'static str>)
        ensures
            literal_text(r) == update_text(self@.change),
    {
        match &self.change {
            Change::Create(_, _, _, _) => None,
            Change::Take(_) => Some("SET leaseOwner = :o, leaseCounter = leaseCounter + :one"),
            Change::Renew => Some("SET leaseCounter = leaseCounter + :one"),
            Change::SaveCheckpoint(_) => Some(
                "SET checkpoint = :cp, leaseCounter = leaseCounter + :one",
            ),
            Change::Complete => Some("SET completed = :t"),
            Change::Release => Some("REMOVE leaseOwner SET leaseCounter = leaseCounter + :one"),
            Change::Beat(_) => Some("SET leaseOwner = :w ADD leaseCounter :one"),
            Change::Delete => None,
        }
    }

    /// The values that the expressions refer to.
    pub fn expression_values(&self) -> (r: Item)
        ensures
            record::attributes(r@) == write_values(self@),
    {
        let mut v = Item::new();
        match &self.condition {
            Condition::CounterIs(n) => {
                v.insert(":c".to_owned(), AttrValue::N(text::decimal(*n)));
            },
            Condition::HeldBy(n, o) => {
                v.insert(":c".to_owned(), AttrValue::N(text::decimal(*n)));
                v.insert(":o".to_owned(), AttrValue::S(o.clone()));
            },
            Condition::Completed => {
                v.insert(":t".to_owned(), AttrValue::Bool(true));
            },
            Condition::Absent => {},
            Condition::Always => {},
        }
        let one = AttrValue::N(text::decimal(1));
        match &self.change {
            Change::Take(o) => {
                v.insert(":o".to_owned(), AttrValue::S(o.clone()));
                v.insert(":one".to_owned(), one);
            },
            Change::Renew => {
                v.insert(":one".to_owned(), one);
            },
            Change::SaveCheckpoint(s) => {
                v.insert(":cp".to_owned(), AttrValue::S(s.clone()));
                v.insert(":one".to_owned(), one);
            },
            Change::Complete => {
                v.insert(":t".to_owned(), AttrValue::Bool(true));
            },
            Change::Release => {
                v.insert(":one".to_owned(), one);
            },
            Change::Beat(w) => {
                v.insert(":w".to_owned(), AttrValue::S(w.clone()));
                v.insert(":one".to_owned(), one);
            },
            Change::Create(_, _, _, _) => {},
            Change::Delete => {},
        }
        v
    }

    /// The attributes of the row, if the write puts a new one.
    pub fn new_item(&self) -> (r: Option<Item>)
        ensures
            match (r, self@.change) {
                (Some(i), ChangeModel::Create(owner, counter, checkpoint, parents)) => record::attributes(i@)
                    == new_row(self@.key, owner, counter, checkpoint, parents),
                (Some(_), _) => false,
                (None, c) => !(c is Create),
            },
    {
        match &self.change {
            Change::Create(owner, counter, checkpoint, parents) => {
                let mut m = Item::new();
                m.insert(LEASE_KEY.to_owned(), AttrValue::S(self.key.clone()));
                m.insert("leaseCounter".to_owned(), AttrValue::N(text::decimal(*counter)));
                if let Some(o) = clone_optional(owner) {
                    m.insert("leaseOwner".to_owned(), AttrValue::S(o));
                }
                if let Some(c) = clone_optional(checkpoint) {
                    m.insert("checkpoint".to_owned(), AttrValue::S(c));
                }
                assert(collections::texts(parents@).len() == parents.len());
                if parents.len() > 0 {
                    m.insert("parentShardIds".to_owned(), list_value(parents));
                }
                Some(m)
            },
            _ => None,
        }
    }
}

/// A lease that was created by a write reads back as it was written.
pub proof fn law_a_new_lease_reads_back(
    key: Seq<char>,
    owner: Option<Seq<char>>,
    counter: u64,
    checkpoint: Option<Seq<char>>,
    parents: Seq<Seq<char>>,
)
    ensures
        lease_of(new_row(key, owner, counter, checkpoint, parents)) == (LeaseModel {
            key,
            owner,
            counter,
            checkpoint,
            completed: false,
            parents,
        }),
{
    reveal_strlit("leaseKey");
    reveal_strlit("leaseOwner");
    reveal_strlit("leaseCounter");
    reveal_strlit("checkpoint");
    reveal_strlit("completed");
    reveal_strlit("parentShardIds");
    assert("leaseKey"@.len() == 8);
    assert("leaseOwner"@.len() == 10);
    assert("leaseCounter"@.len() == 12);
    assert("checkpoint"@.len() == 10);
    assert("completed"@.len() == 9);
    assert("parentShardIds"@.len() == 14);
    assert("checkpoint"@[0] == 'c');
    assert("leaseOwner"@[0] == 'l');
    text::law_decimal_survives(counter as nat);
    lemma_list_texts(parents);
    assert(text::unsigned_value(text::decimal_text(counter as nat), u64::MAX as int) == Some(
        counter as int,
    ));
    if parents.len() == 0 {
        assert(parents =~= Seq::empty());
    }
}

/// A new row is found by what addresses its key, and it is created on condition
/// that there is no row with that attribute yet.
pub proof fn law_a_new_row_is_found_by_its_key(
    key: Seq<char>,
    owner: Option<Seq<char>>,
    counter: u64,
    checkpoint: Option<Seq<char>>,
    parents: Seq<Seq<char>>,
)
    ensures
        row_address(key).submap_of(new_row(key, owner, counter, checkpoint, parents)),
        row_address(key).dom() == set![key_attribute()],
        condition_text(ConditionModel::Absent) == Some(
            "attribute_not_exists("@ + key_attribute() + ")"@,
        ),
{
    reveal_strlit("leaseKey");
    reveal_strlit("leaseOwner");
    reveal_strlit("leaseCounter");
    reveal_strlit("checkpoint");
    reveal_strlit("parentShardIds");
    reveal_strlit("attribute_not_exists(leaseKey)");
    reveal_strlit("attribute_not_exists(");
    reveal_strlit(")");
    assert("leaseKey"@.len() == 8);
    assert("leaseOwner"@.len() == 10);
    assert("leaseCounter"@.len() == 12);
    assert("checkpoint"@.len() == 10);
    assert("parentShardIds"@.len() == 14);
    assert(row_address(key).dom() =~= set![key_attribute()]);
    assert("attribute_not_exists(leaseKey)"@ =~= "attribute_not_exists("@ + key_attribute() + ")"@);
}

proof fn lemma_list_texts(s: Seq<Seq<char>>)
    ensures
        list_texts(text_list(s)) == s,
    decreases s.len(),
{
    if s.len() == 0 {
        assert(list_texts(text_list(s)) =~= s);
    } else {
        lemma_list_texts(s.drop_last());
        assert(text_list(s).drop_last() =~= text_list(s.drop_last()));
        assert(text_list(s).last() == AttrModel::S(s.last()));
        assert(s =~= s.drop_last().push(s.last()));
    }
}

/// The counter that a heartbeat returns among the attributes that it updated;
/// zero if it cannot be read.
pub fn heartbeat_counter(updated: &Option<Item>) -> (r: u64)
    ensures
        r == (match updated {
            Some(i) => match number_attribute(record::attributes(i@), "leaseCounter"@) {
                Some(v) => v,
                None => 0,
            },
            None => 0,
        }),
{
    match updated {
        Some(i) => match read_number(i, "leaseCounter") {
            Some(v) => v,
            None => 0,
        },
        None => 0,
    }
}

/// What a failed publication means: a lease that exists is no error.
pub fn publication_failure(code: Option<&str>, message: &str) -> (r: Result<(), LeaseError>)
    ensures
        r is Ok <==> lease_table::code_text(code) == Some(lease_table::condition_failed()),
        r matches Err(e) ==> e@ == ErrorModel::Aws(message@),
{
    if is_condition_failure(code) {
        Ok(())
    } else {
        Err(LeaseError::Aws(message.to_owned()))
    }
}

/// The counter that a successful bid for leadership holds.
pub fn leadership_counter(expected: Option<u64>) -> (r: u64)
    requires
        expected matches Some(c) ==> c < u64::MAX,
    ensures
        r == (match expected {
            None => 1,
            Some(c) => c + 1,
        }),
{
    match expected {
        None => 1,
        Some(c) => c + 1,
    }
}

/// What a failed bid for leadership means: a lost race is no error.
pub fn leadership_failure(code: Option<&str>, message: &str) -> (r: Result<Option<u64>, LeaseError>)
    ensures
        r is Ok <==> lease_table::code_text(code) == Some(lease_table::condition_failed()),
        r matches Ok(c) ==> c is None,
        r matches Err(e) ==> e@ == ErrorModel::Aws(message@),
{
    if is_condition_failure(code) {
        Ok(None)
    } else {
        Err(LeaseError::Aws(message.to_owned()))
    }
}

/// What to do next to acquire a lease.
pub enum AcquireAction {
    Write(LeaseWrite),
    /// Read the row with a consistent read.
    Read(String),
    Finish(Result<Lease, LeaseError>),
}

/// What happened since the last step.
pub enum AcquireEvent {
    Written,
    WriteFailed(Option<String>, String),
    Read(Option<Lease>),
    ReadFailed(String),
}

/// Where an acquisition stands.
#[derive(Clone, Copy, Debug, PartialEq, Eq, Structural)]
pub enum AcquireStage {
    Creating,
    Reading,
    Claiming(u64),
    Finished,
}

/// The acquisition of a lease: create it if it is absent, else claim it on
/// condition of the counter that was just read.
pub struct Acquire {
    lease_key: String,
    owner: String,
    stage: AcquireStage,
}

/// The state of an acquisition.
pub struct AcquireModel {
    pub key: Seq<char>,
    pub owner: Seq<char>,
    pub stage: AcquireStage,
}

impl View for Acquire {
    type V = AcquireModel;

    closed spec fn view(&self) -> AcquireModel {
        AcquireModel { key: self.lease_key@, owner: self.owner@, stage: self.stage }
    }
}

/// An action, with text in place of strings.
pub enum AcquireActionModel {
    Write(WriteModel),
    Read(Seq<char>),
    Acquired(LeaseModel),
    Failed(ErrorModel),
}

impl View for AcquireAction {
    type V = AcquireActionModel;

    open spec fn view(&self) -> AcquireActionModel {
        match self {
            AcquireAction::Write(w) => AcquireActionModel::Write(w@),
            AcquireAction::Read(k) => AcquireActionModel::Read(k@),
            AcquireAction::Finish(Ok(l)) => AcquireActionModel::Acquired(l@),
            AcquireAction::Finish(Err(e)) => AcquireActionModel::Failed(e@),
        }
    }
}

/// An event, with text in place of strings.
pub enum AcquireEventModel {
    Written,
    WriteFailed(Option<Seq<char>>, Seq<char>),
    Read(Option<LeaseModel>),
    ReadFailed(Seq<char>),
}

impl View for AcquireEvent {
    type V = AcquireEventModel;

    open spec fn view(&self) -> AcquireEventModel {
        match self {
            AcquireEvent::Written => AcquireEventModel::Written,
            AcquireEvent::WriteFailed(c, m) => AcquireEventModel::WriteFailed(
                collections::optional_text(*c),
                m@,
            ),
            AcquireEvent::Read(Some(l)) => AcquireEventModel::Read(Some(l@)),
            AcquireEvent::Read(None) => AcquireEventModel::Read(None),
            AcquireEvent::ReadFailed(m) => AcquireEventModel::ReadFailed(m@),
        }
    }
}

/// The lease that an acquisition holds: without checkpoint and parents, which
/// the caller reads from the table.
pub open spec fn acquired(key: Seq<char>, owner: Seq<char>, counter: u64) -> LeaseModel {
    LeaseModel {
        key,
        owner: Some(owner),
        counter,
        checkpoint: None,
        completed: false,
        parents: Seq::empty(),
    }
}

/// One step of an acquisition. An event that it does not wait for is an error
/// of the caller and finishes it.
pub open spec fn acquire_step(m: AcquireModel, e: AcquireEventModel) -> (
    AcquireModel,
    AcquireActionModel,
) {
    let done = AcquireModel { stage: AcquireStage::Finished, ..m };
    match (m.stage, e) {
        (AcquireStage::Creating, AcquireEventModel::Written) => (
            done,
            AcquireActionModel::Acquired(acquired(m.key, m.owner, 1)),
        ),
        (AcquireStage::Creating, AcquireEventModel::WriteFailed(code, message)) => if code == Some(
            lease_table::condition_failed(),
        ) {
            (
                AcquireModel { stage: AcquireStage::Reading, ..m },
                AcquireActionModel::Read(m.key),
            )
        } else {
            (done, AcquireActionModel::Failed(ErrorModel::Aws(message)))
        },
        (AcquireStage::Reading, AcquireEventModel::ReadFailed(message)) => (
            done,
            AcquireActionModel::Failed(ErrorModel::Aws(message)),
        ),
        (AcquireStage::Reading, AcquireEventModel::Read(None)) => (
            done,
            AcquireActionModel::Failed(ErrorModel::Aws("lease vanished"@)),
        ),
        (AcquireStage::Reading, AcquireEventModel::Read(Some(l))) => (
            AcquireModel { stage: AcquireStage::Claiming(l.counter), ..m },
            AcquireActionModel::Write(
                WriteModel {
                    key: m.key,
                    condition: ConditionModel::CounterIs(l.counter),
                    change: ChangeModel::Take(m.owner),
                },
            ),
        ),
        (AcquireStage::Claiming(seen), AcquireEventModel::Written) => (
            done,
            AcquireActionModel::Acquired(acquired(m.key, m.owner, (seen + 1) as u64)),
        ),
        (AcquireStage::Claiming(_), AcquireEventModel::WriteFailed(code, message)) => (
            done,
            AcquireActionModel::Failed(lease_table::classified(code, message)),
        ),
        _ => (done, AcquireActionModel::Failed(ErrorModel::Aws("unexpected answer"@))),
    }
}

impl Acquire {
    /// Start to acquire a lease: the first step is to create it.
    pub fn start(lease_key: &str, owner: &str) -> (r: (Acquire, AcquireAction))
        ensures
            r.0@ == (AcquireModel {
                key: lease_key@,
                owner: owner@,
                stage: AcquireStage::Creating,
            }),
            r.1@ == AcquireActionModel::Write(
                WriteModel {
                    key: lease_key@,
                    condition: ConditionModel::Absent,
                    change: ChangeModel::Create(Some(owner@), 1, None, Seq::empty()),
                },
            ),
    {
        let a = Acquire {
            lease_key: lease_key.to_owned(),
            owner: owner.to_owned(),
            stage: AcquireStage::Creating,
        };
        (a, AcquireAction::Write(LeaseWrite::create(lease_key, owner)))
    }

    fn held(&self, counter: u64) -> (l: Lease)
        ensures
            l@ == acquired(self@.key, self@.owner, counter),
    {
        let l = Lease {
            lease_key: self.lease_key.clone(),
            lease_owner: Some(self.owner.clone()),
            lease_counter: counter,
            checkpoint: None,
            completed: false,
            parents: Vec::new(),
        };
        assert(l@.parents =~= Seq::empty());
        l
    }

    /// Advance the acquisition. The counter of the row that was read must have
    /// a successor.
    pub fn step(&mut self, event: AcquireEvent) -> (a: AcquireAction)
        requires
            event matches AcquireEvent::Read(Some(l)) ==> l.lease_counter < u64::MAX,
            old(self)@.stage matches AcquireStage::Claiming(c) ==> c < u64::MAX,
        ensures
            (final(self)@, a@) == acquire_step(old(self)@, event@),
    {
        let stage = self.stage;
        self.stage = AcquireStage::Finished;
        match (stage, event) {
            (AcquireStage::Creating, AcquireEvent::Written) => AcquireAction::Finish(
                Ok(self.held(1)),
            ),
            (AcquireStage::Creating, AcquireEvent::WriteFailed(code, message)) => {
                let code: Option<&str> = match &code {
                    Some(c) => Some(c.as_str()),
                    None => None,
                };
                if is_condition_failure(code) {
                    self.stage = AcquireStage::Reading;
                    AcquireAction::Read(self.lease_key.clone())
                } else {
                    AcquireAction::Finish(Err(LeaseError::Aws(message)))
                }
            },
            (AcquireStage::Reading, AcquireEvent::ReadFailed(message)) => AcquireAction::Finish(
                Err(LeaseError::Aws(message)),
            ),
            (AcquireStage::Reading, AcquireEvent::Read(row)) => match row {
                None => AcquireAction::Finish(Err(LeaseError::Aws("lease vanished".to_owned()))),
                Some(l) => {
                    self.stage = AcquireStage::Claiming(l.lease_counter);
                    AcquireAction::Write(
                        LeaseWrite::claim(
                            self.lease_key.as_str(),
                            self.owner.as_str(),
                            l.lease_counter,
                        ),
                    )
                },
            },
            (AcquireStage::Claiming(seen), AcquireEvent::Written) => AcquireAction::Finish(
                Ok(self.held(seen + 1)),
            ),
            (AcquireStage::Claiming(_), AcquireEvent::WriteFailed(code, message)) => {
                let code: Option<&str> = match &code {
                    Some(c) => Some(c.as_str()),
                    None => None,
                };
                AcquireAction::Finish(Err(classify(code, message.as_str())))
            },
            _ => AcquireAction::Finish(Err(LeaseError::Aws("unexpected answer".to_owned()))),
        }
    }
}

/// Whoever creates a lease, or claims it, holds it in the table with the
/// counter that the acquisition returns.
pub proof fn law_an_acquired_lease_is_held(
    t: Map<Seq<char>, lease_table::Row>,
    key: Seq<char>,
    owner: Seq<char>,
    seen: u64,
)
    requires
        seen < u64::MAX,
    ensures
        ({
            let create = WriteModel {
                key,
                condition: ConditionModel::Absent,
                change: ChangeModel::Create(Some(owner), 1, None, Seq::empty()),
            };
            let claim = WriteModel {
                key,
                condition: ConditionModel::CounterIs(seen),
                change: ChangeModel::Take(owner),
            };
            &&& lease_table::written(t, create) matches Some(u) ==> {
                let l = acquired(key, owner, 1);
                u[key].owner == l.owner && u[key].counter == l.counter
            }
            &&& lease_table::written(t, claim) matches Some(u) ==> {
                let l = acquired(key, owner, (seen + 1) as u64);
                u[key].owner == l.owner && u[key].counter == l.counter
            }
        }),
{
}

/// The attributes `m` are those of the row `r` under `key`: what the row does not
/// have is not there.
pub open spec fn stands_for(m: Map<Seq<char>, AttrModel>, key: Seq<char>, r: Row) -> bool {
    &&& m.contains_pair("leaseKey"@, AttrModel::S(key))
    &&& 0 <= r.counter <= u64::MAX
    &&& m.contains_pair("leaseCounter"@, AttrModel::N(text::decimal_text(r.counter as nat)))
    &&& match r.owner {
        Some(o) => m.contains_pair("leaseOwner"@, AttrModel::S(o)),
        None => !m.contains_key("leaseOwner"@),
    }
    &&& match r.checkpoint {
        Some(c) => m.contains_pair("checkpoint"@, AttrModel::S(c)),
        None => !m.contains_key("checkpoint"@),
    }
    &&& if r.completed {
        m.contains_pair("completed"@, AttrModel::Bool(true))
    } else {
        !m.contains_key("completed"@)
    }
    &&& if r.parents.len() == 0 {
        !m.contains_key("parentShardIds"@)
    } else {
        m.contains_key("parentShardIds"@) && (m["parentShardIds"@] matches AttrModel::L(l) && {
            &&& l.len() == r.parents.len()
            &&& forall|i: int| 0 <= i < l.len() ==> #[trigger] l[i] == AttrModel::S(r.parents[i])
        })
    }
}

/// The number that an attribute value holds.
pub open spec fn number_in(v: AttrModel) -> int {
    match v {
        AttrModel::N(n) => text::decimal_value(n),
        _ => 0,
    }
}

/// The sum of two number values.
pub open spec fn sum_of(a: AttrModel, b: AttrModel) -> AttrModel {
    AttrModel::N(text::decimal_text((number_in(a) + number_in(b)) as nat))
}

/// What the service makes of the attributes of a row, given an update expression
/// and its values. Expressions that are not used here are not interpreted.
pub open spec fn executed(
    expression: Seq<char>,
    v: Map<Seq<char>, AttrModel>,
    m: Map<Seq<char>, AttrModel>,
) -> Option<Map<Seq<char>, AttrModel>> {
    let next = sum_of(m["leaseCounter"@], v[":one"@]);
    if expression == "SET completed = :t"@ {
        Some(m.insert("completed"@, v[":t"@]))
    } else if expression == "SET leaseCounter = leaseCounter + :one"@ {
        Some(m.insert("leaseCounter"@, next))
    } else if expression == "SET leaseOwner = :w ADD leaseCounter :one"@ {
        Some(
            m.insert("leaseOwner"@, v[":w"@]).insert(
                "leaseCounter"@,
                if m.contains_key("leaseCounter"@) {
                    next
                } else {
                    v[":one"@]
                },
            ),
        )
    } else if expression == "SET leaseOwner = :o, leaseCounter = leaseCounter + :one"@ {
        Some(m.insert("leaseOwner"@, v[":o"@]).insert("leaseCounter"@, next))
    } else if expression == "REMOVE leaseOwner SET leaseCounter = leaseCounter + :one"@ {
        Some(m.remove("leaseOwner"@).insert("leaseCounter"@, next))
    } else if expression == "SET checkpoint = :cp, leaseCounter = leaseCounter + :one"@ {
        Some(m.insert("checkpoint"@, v[":cp"@]).insert("leaseCounter"@, next))
    } else {
        None
    }
}

/// What the service makes of a condition expression and its values on the
/// attributes of a row, if there is one.
pub open spec fn admits(
    expression: Option<Seq<char>>,
    v: Map<Seq<char>, AttrModel>,
    row: Option<Map<Seq<char>, AttrModel>>,
) -> bool {
    let there = |name: Seq<char>| row matches Some(m) && m.contains_key(name);
    let equal = |name: Seq<char>, value: Seq<char>|
        row matches Some(m) && m.contains_key(name) && v.contains_key(value) && m[name]
            == v[value];
    match expression {
        None => true,
        Some(e) => if e == "attribute_not_exists(leaseKey)"@ {
            !there("leaseKey"@)
        } else if e == "leaseCounter = :c"@ {
            equal("leaseCounter"@, ":c"@)
        } else if e == "leaseCounter = :c AND leaseOwner = :o"@ {
            equal("leaseCounter"@, ":c"@) && equal("leaseOwner"@, ":o"@)
        } else if e == "attribute_exists(leaseKey) AND completed = :t"@ {
            there("leaseKey"@) && equal("completed"@, ":t"@)
        } else {
            false
        },
    }
}

/// The values that an expression refers to.
pub open spec fn placeholders(expression: Option<Seq<char>>) -> Set<Seq<char>> {
    match expression {
        None => Set::empty(),
        Some(e) => if e == "SET completed = :t"@ {
            set![":t"@]
        } else if e == "attribute_exists(leaseKey) AND completed = :t"@ {
            set![":t"@]
        } else if e == "SET leaseCounter = leaseCounter + :one"@ {
            set![":one"@]
        } else if e == "REMOVE leaseOwner SET leaseCounter = leaseCounter + :one"@ {
            set![":one"@]
        } else if e == "SET leaseOwner = :w ADD leaseCounter :one"@ {
            set![":w"@, ":one"@]
        } else if e == "SET leaseOwner = :o, leaseCounter = leaseCounter + :one"@ {
            set![":o"@, ":one"@]
        } else if e == "SET checkpoint = :cp, leaseCounter = leaseCounter + :one"@ {
            set![":cp"@, ":one"@]
        } else if e == "leaseCounter = :c"@ {
            set![":c"@]
        } else if e == "leaseCounter = :c AND leaseOwner = :o"@ {
            set![":c"@, ":o"@]
        } else {
            Set::empty()
        },
    }
}

/// The expressions, the attributes and the placeholders are told apart by their
/// lengths and first characters.
proof fn lemma_words()
    ensures
        "SET completed = :t"@.len() == 18,
        "SET leaseCounter = leaseCounter + :one"@.len() == 38,
        "SET leaseOwner = :w ADD leaseCounter :one"@.len() == 41,
        "SET leaseOwner = :o, leaseCounter = leaseCounter + :one"@.len() == 55,
        "SET checkpoint = :cp, leaseCounter = leaseCounter + :one"@.len() == 56,
        "SET checkpoint = :cp, leaseCounter = leaseCounter + :one"@[0] == 'S',
        "REMOVE leaseOwner SET leaseCounter = leaseCounter + :one"@.len() == 56,
        "REMOVE leaseOwner SET leaseCounter = leaseCounter + :one"@[0] == 'R',
        "attribute_not_exists(leaseKey)"@.len() == 30,
        "leaseCounter = :c"@.len() == 17,
        "leaseCounter = :c AND leaseOwner = :o"@.len() == 37,
        "attribute_exists(leaseKey) AND completed = :t"@.len() == 45,
        "leaseKey"@.len() == 8,
        "leaseOwner"@.len() == 10,
        "leaseOwner"@[0] == 'l',
        "leaseCounter"@.len() == 12,
        "checkpoint"@.len() == 10,
        "checkpoint"@[0] == 'c',
        "completed"@.len() == 9,
        "parentShardIds"@.len() == 14,
        ":c"@.len() == 2,
        ":c"@[1] == 'c',
        ":o"@.len() == 2,
        ":o"@[1] == 'o',
        ":t"@.len() == 2,
        ":t"@[1] == 't',
        ":w"@.len() == 2,
        ":w"@[1] == 'w',
        ":cp"@.len() == 3,
        ":one"@.len() == 4,
{
    reveal_strlit("SET completed = :t");
    reveal_strlit("SET leaseCounter = leaseCounter + :one");
    reveal_strlit("SET leaseOwner = :w ADD leaseCounter :one");
    reveal_strlit("SET leaseOwner = :o, leaseCounter = leaseCounter + :one");
    reveal_strlit("SET checkpoint = :cp, leaseCounter = leaseCounter + :one");
    reveal_strlit("REMOVE leaseOwner SET leaseCounter = leaseCounter + :one");
    reveal_strlit("attribute_not_exists(leaseKey)");
    reveal_strlit("leaseCounter = :c");
    reveal_strlit("leaseCounter = :c AND leaseOwner = :o");
    reveal_strlit("attribute_exists(leaseKey) AND completed = :t");
    reveal_strlit("leaseKey");
    reveal_strlit("leaseOwner");
    reveal_strlit("leaseCounter");
    reveal_strlit("checkpoint");
    reveal_strlit("completed");
    reveal_strlit("parentShardIds");
    reveal_strlit(":c");
    reveal_strlit(":o");
    reveal_strlit(":t");
    reveal_strlit(":w");
    reveal_strlit(":cp");
    reveal_strlit(":one");
}

/// A row is read from its attributes as it stands there.
pub proof fn law_a_row_reads_as_it_stands(m: Map<Seq<char>, AttrModel>, key: Seq<char>, r: Row)
    requires
        stands_for(m, key, r),
    ensures
        lease_of(m).key == key,
        lease_of(m).owner == r.owner,
        lease_of(m).counter == r.counter,
        lease_of(m).checkpoint == r.checkpoint,
        lease_of(m).completed == r.completed,
        lease_of(m).parents == r.parents,
{
    lemma_words();
    text::law_decimal_survives(r.counter as nat);
    assert(text::unsigned_value(text::decimal_text(r.counter as nat), u64::MAX as int) == Some(
        r.counter,
    ));
    if r.parents.len() > 0 {
        if let AttrModel::L(l) = m["parentShardIds"@] {
            assert(l =~= text_list(r.parents));
            lemma_list_texts(r.parents);
        }
    } else {
        assert(r.parents =~= Seq::empty());
    }
}

/// A condition that is worded for the service admits exactly what the model of
/// the table admits.
pub proof fn law_worded_conditions_mean_what_they_say(
    w: WriteModel,
    m: Map<Seq<char>, AttrModel>,
    r: Row,
)
    requires
        stands_for(m, w.key, r),
        !(w.condition is HeldBy && w.change is Take),
    ensures
        admits(condition_text(w.condition), write_values(w), Some(m)) == lease_table::meets(
            Some(r),
            w.condition,
        ),
        admits(condition_text(w.condition), write_values(w), None) == lease_table::meets(
            None,
            w.condition,
        ),
{
    lemma_words();
    text::law_decimal_survives(r.counter as nat);
    match w.condition {
        ConditionModel::CounterIs(n) => {
            text::law_decimal_survives(n as nat);
        },
        ConditionModel::HeldBy(n, _) => {
            text::law_decimal_survives(n as nat);
        },
        _ => {},
    }
}

/// What a worded write leaves of the attributes of a row is what the model of the
/// table says that it leaves of the row.
pub proof fn law_worded_writes_do_what_they_say(
    w: WriteModel,
    m: Map<Seq<char>, AttrModel>,
    r: Row,
)
    requires
        stands_for(m, w.key, r),
        r.counter < u64::MAX,
        !(w.change is Create) && !(w.change is Delete),
        !(w.condition is HeldBy && w.change is Take),
    ensures
        update_text(w.change) is Some,
        executed(update_text(w.change)->0, write_values(w), m) matches Some(u) && stands_for(
            u,
            w.key,
            lease_table::changed(Some(r), w.change)->0,
        ),
{
    lemma_words();
    text::law_decimal_survives(r.counter as nat);
    text::law_decimal_survives(1);
}

/// A heartbeat makes a row where there was none, with the first counter.
pub proof fn law_a_first_heartbeat_makes_a_row(key: Seq<char>, worker: Seq<char>)
    ensures
        ({
            let w = WriteModel {
                key,
                condition: ConditionModel::Always,
                change: ChangeModel::Beat(worker),
            };
            &&& executed(update_text(w.change)->0, write_values(w), row_address(key)) matches
                Some(u) && stands_for(
                u,
                key,
                Row {
                    owner: Some(worker),
                    counter: 1,
                    checkpoint: None,
                    completed: false,
                    parents: Seq::empty(),
                },
            )
        }),
{
    lemma_words();
}

/// A new row stands for what was to be created.
pub proof fn law_a_new_row_stands_for_what_was_created(
    key: Seq<char>,
    owner: Option<Seq<char>>,
    counter: u64,
    checkpoint: Option<Seq<char>>,
    parents: Seq<Seq<char>>,
)
    ensures
        stands_for(
            new_row(key, owner, counter, checkpoint, parents),
            key,
            Row { owner, counter: counter as int, checkpoint, completed: false, parents },
        ),
{
    lemma_words();
}

/// A write comes with the values that its expressions refer to, and with no
/// other.
pub proof fn law_values_are_those_referred_to(w: WriteModel)
    ensures
        write_values(w).dom() == placeholders(condition_text(w.condition)).union(
            placeholders(update_text(w.change)),
        ),
{
    lemma_words();
    assert(write_values(w).dom() =~= placeholders(condition_text(w.condition)).union(
        placeholders(update_text(w.change)),
    ));
}

/// A shard that is marked complete reads back as completed, and all else of its
/// row as before; the mark is made only while the lease is held at the counter
/// that was seen.
pub proof fn law_a_shard_marked_complete_reads_as_completed(
    key: Seq<char>,
    owner: Seq<char>,
    counter: u64,
    m: Map<Seq<char>, AttrModel>,
    r: Row,
)
    requires
        stands_for(m, key, r),
        counter < u64::MAX,
    ensures
        ({
            let w = WriteModel {
                key,
                condition: ConditionModel::HeldBy(counter, owner),
                change: ChangeModel::Complete,
            };
            &&& admits(condition_text(w.condition), write_values(w), Some(m)) <==> r.counter
                == counter && r.owner == Some(owner)
            &&& executed(update_text(w.change)->0, write_values(w), m) matches Some(u) && {
                &&& u["completed"@] == AttrModel::Bool(true)
                &&& lease_of(u).completed
                &&& lease_of(u).key == key
                &&& lease_of(u).owner == r.owner
                &&& lease_of(u).counter == r.counter
                &&& lease_of(u).checkpoint == r.checkpoint
                &&& lease_of(u).parents == r.parents
            }
        }),
{
    let w = WriteModel {
        key,
        condition: ConditionModel::HeldBy(counter, owner),
        change: ChangeModel::Complete,
    };
    lemma_words();
    law_worded_conditions_mean_what_they_say(w, m, r);
    let u = executed(update_text(w.change)->0, write_values(w), m)->0;
    law_a_row_reads_as_it_stands(u, key, Row { completed: true, ..r });
}

/// What a row says is read off its attributes: a key and an owner from texts, a
/// counter from a number, completion from the boolean `true` alone.
pub proof fn law_attributes_say_what_a_lease_is(m: Map<Seq<char>, AttrModel>, s: Seq<char>)
    ensures
        m.contains_pair("leaseKey"@, AttrModel::S(s)) ==> lease_of(m).key == s,
        m.contains_pair("leaseOwner"@, AttrModel::S(s)) <==> lease_of(m).owner == Some(s),
        m.contains_pair("checkpoint"@, AttrModel::S(s)) <==> lease_of(m).checkpoint == Some(s),
        lease_of(m).completed <==> m.contains_pair("completed"@, AttrModel::Bool(true)),
        !m.contains_key("leaseCounter"@) ==> lease_of(m).counter == 0,
        !m.contains_key("parentShardIds"@) ==> lease_of(m).parents.len() == 0,
{
}

/// Acquiring a lease holds it: an absent one is created, one that exists is read
/// and then taken, on condition that nobody wrote it meanwhile. What is returned
/// is the owner and the counter that the table then shows.
pub proof fn law_acquiring_holds_the_lease(
    t: Map<Seq<char>, Row>,
    key: Seq<char>,
    owner: Seq<char>,
    message: Seq<char>,
    seen: LeaseModel,
)
    requires
        seen.counter < u64::MAX,
    ensures
        ({
            let m0 = AcquireModel { key, owner, stage: AcquireStage::Creating };
            let refused = AcquireEventModel::WriteFailed(
                Some("ConditionalCheckFailedException"@),
                message,
            );
            let made = acquire_step(m0, AcquireEventModel::Written).1;
            let (m1, a1) = acquire_step(m0, refused);
            let (m2, a2) = acquire_step(m1, AcquireEventModel::Read(Some(seen)));
            let (m3, a3) = acquire_step(m2, AcquireEventModel::Written);
            let lost = acquire_step(m2, refused).1;
            &&& made matches AcquireActionModel::Acquired(l) && l.key == key && l.owner == Some(
                owner,
            ) && l.counter == 1
            &&& a1 == AcquireActionModel::Read(key)
            &&& a2 matches AcquireActionModel::Write(w) && {
                &&& w.key == key
                &&& t.contains_key(key) && t[key].counter == seen.counter ==> {
                    &&& lease_table::written(t, w) matches Some(u) && u[key].owner == Some(owner)
                        && u[key].counter == seen.counter + 1 && u[key].checkpoint
                        == t[key].checkpoint && u[key].completed == t[key].completed
                        && u[key].parents == t[key].parents
                }
                &&& !t.contains_key(key) || t[key].counter != seen.counter ==> lease_table::written(
                    t,
                    w,
                ) is None
            }
            &&& a3 matches AcquireActionModel::Acquired(l) && l.key == key && l.owner == Some(owner)
                && l.counter == seen.counter + 1
            &&& lost == AcquireActionModel::Failed(ErrorModel::Lost)
            &&& acquire_step(m1, AcquireEventModel::Read(None)).1 is Failed
            &&& m3.stage == AcquireStage::Finished
        }),
{
}

/// The actions and events of an acquisition are what they stand for.
pub proof fn law_actions_and_events_are_as_they_stand(a: AcquireAction, e: AcquireEvent)
    ensures
        match a {
            AcquireAction::Write(w) => a@ == AcquireActionModel::Write(w@),
            AcquireAction::Read(k) => a@ == AcquireActionModel::Read(k@),
            AcquireAction::Finish(Ok(l)) => a@ == AcquireActionModel::Acquired(l@),
            AcquireAction::Finish(Err(x)) => a@ == AcquireActionModel::Failed(x@),
        },
        match e {
            AcquireEvent::Written => e@ is Written,
            AcquireEvent::WriteFailed(None, m) => e@ == AcquireEventModel::WriteFailed(None, m@),
            AcquireEvent::WriteFailed(Some(c), m) => e@ == AcquireEventModel::WriteFailed(
                Some(c@),
                m@,
            ),
            AcquireEvent::Read(None) => e@ == AcquireEventModel::Read(None),
            AcquireEvent::Read(Some(l)) => e@ == AcquireEventModel::Read(Some(l@)),
            AcquireEvent::ReadFailed(m) => e@ == AcquireEventModel::ReadFailed(m@),
        },
{
}

} // verus!
