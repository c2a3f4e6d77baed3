//! Typed DynamoDB attribute values, items and change records.

use vstd::prelude::*;

use crate::collections::{clone_optional, clone_strings};
use crate::collections;
use crate::text;

verus! {

/// A DynamoDB attribute value.
#[derive(Debug, PartialEq, Eq)]
pub enum AttrValue {
    S(String),
    /// A number, in its canonical text: its precision is not limited.
    N(String),
    Bool(bool),
    Null,
    B(Vec<u8>),
    M(Item),
    L(Vec<AttrValue>),
    Ss(Vec<String>),
    Ns(Vec<String>),
    Bs(Vec<Vec<u8>>),
}

/// A map from attribute names to values, in ascending order of the names.
#[derive(Debug, PartialEq, Eq)]
pub struct Item {
    entries: Vec<(String, AttrValue)>,
}

/// The contents of an attribute value.
pub enum AttrModel {
    S(Seq<char>),
    N(Seq<char>),
    Bool(bool),
    Null,
    B(Seq<u8>),
    M(Seq<(Seq<char>, AttrModel)>),
    L(Seq<AttrModel>),
    Ss(Seq<Seq<char>>),
    Ns(Seq<Seq<char>>),
    Bs(Seq<Seq<u8>>),
}

/// The contents of some byte strings.
pub open spec fn blobs(s: Seq<Vec<u8>>) -> Seq<Seq<u8>> {
    s.map_values(|b: Vec<u8>| b@)
}

/// The contents of an attribute value.
pub open spec fn attr_model(av: AttrValue) -> AttrModel
    decreases av,
{
    match av {
        AttrValue::S(s) => AttrModel::S(s@),
        AttrValue::N(n) => AttrModel::N(n@),
        AttrValue::Bool(b) => AttrModel::Bool(b),
        AttrValue::Null => AttrModel::Null,
        AttrValue::B(b) => AttrModel::B(b@),
        AttrValue::M(m) => AttrModel::M(pair_models(m.pairs())),
        AttrValue::L(l) => AttrModel::L(attr_models(l@)),
        AttrValue::Ss(s) => AttrModel::Ss(collections::texts(s@)),
        AttrValue::Ns(n) => AttrModel::Ns(collections::texts(n@)),
        AttrValue::Bs(b) => AttrModel::Bs(blobs(b@)),
    }
}

/// The contents of a list.
pub open spec fn attr_models(s: Seq<AttrValue>) -> Seq<AttrModel>
    decreases s,
{
    if s.len() == 0 {
        Seq::empty()
    } else {
        attr_models(s.drop_last()).push(attr_model(s.last()))
    }
}

/// The contents of the attributes of an item.
pub open spec fn pair_models(s: Seq<(String, AttrValue)>) -> Seq<(Seq<char>, AttrModel)>
    decreases s,
{
    if s.len() == 0 {
        Seq::empty()
    } else {
        pair_models(s.drop_last()).push((s.last().0@, attr_model(s.last().1)))
    }
}

impl View for AttrValue {
    type V = AttrModel;

    open spec fn view(&self) -> AttrModel {
        attr_model(*self)
    }
}

impl View for Item {
    type V = Seq<(Seq<char>, AttrModel)>;

    open spec fn view(&self) -> Seq<(Seq<char>, AttrModel)> {
        pair_models(self.pairs())
    }
}

/// The map that a series of attributes denotes.
pub open spec fn attributes(s: Seq<(Seq<char>, AttrModel)>) -> Map<Seq<char>, AttrModel>
    decreases s.len(),
{
    if s.len() == 0 {
        Map::empty()
    } else {
        attributes(s.drop_last()).insert(s.last().0, s.last().1)
    }
}

/// The names of a series of attributes.
pub open spec fn names(s: Seq<(Seq<char>, AttrModel)>) -> Seq<Seq<char>> {
    s.map_values(|e: (Seq<char>, AttrModel)| e.0)
}

/// Every text comes before the later ones.
pub open spec fn ascending(s: Seq<Seq<char>>) -> bool {
    forall|i: int, j: int| 0 <= i < j < s.len() ==> text::lex_less(#[trigger] s[i], #[trigger] s[j])
}

pub proof fn lemma_attr_models(s: Seq<AttrValue>)
    ensures
        attr_models(s).len() == s.len(),
        forall|i: int| 0 <= i < s.len() ==> #[trigger] attr_models(s)[i] == attr_model(s[i]),
    decreases s.len(),
{
    if s.len() > 0 {
        lemma_attr_models(s.drop_last());
        assert forall|i: int| 0 <= i < s.len() implies #[trigger] attr_models(s)[i] == attr_model(
            s[i],
        ) by {
            if i < s.len() - 1 {
                assert(attr_models(s.drop_last())[i] == attr_model(s.drop_last()[i]));
            }
        }
    }
}

pub proof fn lemma_pair_models(s: Seq<(String, AttrValue)>)
    ensures
        pair_models(s).len() == s.len(),
        forall|i: int|
            0 <= i < s.len() ==> #[trigger] pair_models(s)[i] == (s[i].0@, attr_model(s[i].1)),
    decreases s.len(),
{
    if s.len() > 0 {
        lemma_pair_models(s.drop_last());
        assert forall|i: int| 0 <= i < s.len() implies #[trigger] pair_models(s)[i] == (
            s[i].0@,
            attr_model(s[i].1),
        ) by {
            if i < s.len() - 1 {
                assert(pair_models(s.drop_last())[i] == (
                    s.drop_last()[i].0@,
                    attr_model(s.drop_last()[i].1),
                ));
            }
        }
    }
}

proof fn lemma_attributes(s: Seq<(Seq<char>, AttrModel)>)
    requires
        ascending(names(s)),
    ensures
        forall|k: Seq<char>| #[trigger]
            attributes(s).contains_key(k) <==> names(s).contains(k),
        forall|i: int| 0 <= i < s.len() ==> attributes(s)[(#[trigger] s[i]).0] == s[i].1,
    decreases s.len(),
{
    if s.len() > 0 {
        let rest = s.drop_last();
        assert(names(rest) =~= names(s).drop_last());
        assert forall|i: int, j: int| 0 <= i < j < names(rest).len() implies text::lex_less(
            #[trigger] names(rest)[i],
            #[trigger] names(rest)[j],
        ) by {
            assert(text::lex_less(names(s)[i], names(s)[j]));
        }
        lemma_attributes(rest);
        assert forall|k: Seq<char>| #[trigger] attributes(s).contains_key(k) <==> names(s).contains(
            k,
        ) by {
            assert(attributes(rest).contains_key(k) <==> names(rest).contains(k));
            if names(rest).contains(k) {
                let i = names(rest).index_of(k);
                assert(names(s)[i] == k);
            }
            if names(s).contains(k) && k != s.last().0 {
                let i = names(s).index_of(k);
                assert(names(rest)[i] == k);
            }
            if k == s.last().0 {
                assert(names(s)[s.len() - 1] == k);
            }
        }
        assert forall|i: int| 0 <= i < s.len() implies attributes(s)[(#[trigger] s[i]).0]
            == s[i].1 by {
            if i < s.len() - 1 {
                assert(rest[i] == s[i]);
                assert(text::lex_less(names(s)[i], names(s)[s.len() - 1]));
                text::lemma_lex_less_total(names(s)[i], names(s)[s.len() - 1]);
            }
        }
    }
}

impl Item {
    #[verifier::type_invariant]
    spec fn inv(self) -> bool {
        ascending(names(pair_models(self.entries@)))
    }

    /// The attributes, in ascending order of their names.
    pub closed spec fn pairs(self) -> Seq<(String, AttrValue)> {
        self.entries@
    }

    /// The attribute at position `i`; the names are in ascending order.
    pub fn entry(&self, i: usize) -> (r: (&String, &AttrValue))
        requires
            i < self@.len(),
        ensures
            (r.0@, r.1@) == self@[i as int],
            ascending(names(self@)),
            decreases_to!(self => r.1),
    {
        proof {
            use_type_invariant(&*self);
            lemma_pair_models(self.entries@);
            assert(decreases_to!(self => self.entries@[i as int].1));
        }
        (&self.entries[i].0, &self.entries[i].1)
    }

    /// The item without attributes.
    pub fn new() -> (r: Item)
        ensures
            r@ == Seq::<(Seq<char>, AttrModel)>::empty(),
            attributes(r@) == Map::<Seq<char>, AttrModel>::empty(),
    {
        Item { entries: Vec::new() }
    }

    /// The number of attributes.
    pub fn len(&self) -> (n: usize)
        ensures
            n == self@.len(),
    {
        proof {
            lemma_pair_models(self.entries@);
        }
        self.entries.len()
    }

    /// Are there no attributes?
    pub fn is_empty(&self) -> (r: bool)
        ensures
            r == (self@.len() == 0),
            r == (attributes(self@) == Map::<Seq<char>, AttrModel>::empty()),
    {
        proof {
            lemma_pair_models(self.entries@);
            if self@.len() > 0 {
                assert(attributes(self@).contains_key(self@.last().0));
            }
        }
        self.entries.len() == 0
    }

    /// The position of the first attribute whose name does not come before
    /// `name`, and whether it has that name.
    fn position(&self, name: &str) -> (r: (usize, bool))
        ensures
            r.0 <= self.entries.len(),
            forall|i: int| 0 <= i < r.0 ==> text::lex_less((#[trigger] self@[i]).0, name@),
            r.1 ==> r.0 < self.entries.len() && self@[r.0 as int].0 == name@,
            !r.1 ==> forall|i: int|
                r.0 <= i < self@.len() ==> text::lex_less(name@, (#[trigger] self@[i]).0),
            self@.len() == self.entries.len(),
    {
        proof {
            use_type_invariant(&*self);
            lemma_pair_models(self.entries@);
        }
        let mut i: usize = 0;
        while i < self.entries.len()
            invariant
                i <= self.entries.len(),
                self@.len() == self.entries.len(),
                ascending(names(self@)),
                forall|k: int|
                    0 <= k < self.entries.len() ==> (#[trigger] self@[k]).0
                        == self.entries@[k].0@,
                forall|k: int| 0 <= k < i ==> text::lex_less((#[trigger] self@[k]).0, name@),
            decreases self.entries.len() - i,
        {
            assert(self@[i as int].0 == self.entries@[i as int].0@);
            if text::same(self.entries[i].0.as_str(), name) {
                return (i, true);
            }
            if !text::less(self.entries[i].0.as_str(), name) {
                proof {
                    text::lemma_lex_less_total(self@[i as int].0, name@);
                    assert forall|k: int| i <= k < self@.len() implies text::lex_less(
                        name@,
                        (#[trigger] self@[k]).0,
                    ) by {
                        if k > i {
                            assert(text::lex_less(names(self@)[i as int], names(self@)[k]));
                            text::lemma_lex_less_transitive(name@, self@[i as int].0, self@[k].0);
                        }
                    }
                }
                return (i, false);
            }
            i = i + 1;
        }
        (i, false)
    }

    /// The value of the attribute `name`.
    pub fn get(&self, name: &str) -> (r: Option<&AttrValue>)
        ensures
            match r {
                Some(v) => attributes(self@).contains_key(name@) && attributes(self@)[name@] == v@,
                None => !attributes(self@).contains_key(name@),
            },
    {
        proof {
            use_type_invariant(&*self);
            lemma_pair_models(self.entries@);
            lemma_attributes(self@);
        }
        let (i, found) = self.position(name);
        if found {
            assert(names(self@)[i as int] == name@);
            assert(self@[i as int] == (self.entries@[i as int].0@, self.entries@[i as int].1@));
            Some(&self.entries[i].1)
        } else {
            proof {
                if names(self@).contains(name@) {
                    let k = names(self@).index_of(name@);
                    text::lemma_lex_less_total(self@[k].0, name@);
                }
            }
            None
        }
    }

    /// Set the value of the attribute `name`.
    pub fn insert(&mut self, name: String, value: AttrValue)
        ensures
            attributes(final(self)@) == attributes(old(self)@).insert(name@, value@),
    {
        proof {
            use_type_invariant(&*self);
            lemma_pair_models(self.entries@);
            lemma_attributes(self@);
        }
        let (i, found) = self.position(name.as_str());
        let ghost before = self@;
        let ghost old_entries = self.entries@;
        let ghost key = name@;
        let ghost val = value@;
        let mut entries: Vec<(String, AttrValue)> = Vec::new();
        std::mem::swap(&mut entries, &mut self.entries);
        if found {
            entries.set(i, (name, value));
            proof {
                lemma_pair_models(entries@);
                assert(pair_models(entries@) =~= before.update(i as int, (key, val)));
                assert(names(pair_models(entries@)) =~= names(before));
            }
        } else {
            entries.insert(i, (name, value));
            proof {
                lemma_pair_models(entries@);
                let after = pair_models(entries@);
                assert(after =~= before.insert(i as int, (key, val)));
                assert forall|a: int, b: int| 0 <= a < b < names(after).len() implies text::lex_less(
                    #[trigger] names(after)[a],
                    #[trigger] names(after)[b],
                ) by {
                    let x = if a < i {
                        a
                    } else {
                        a - 1
                    };
                    let y = if b < i {
                        b
                    } else {
                        b - 1
                    };
                    if a != i && b != i {
                        assert(text::lex_less(names(before)[x], names(before)[y]));
                    } else if a == i {
                        assert(text::lex_less(key, before[y].0));
                    } else {
                        assert(text::lex_less(before[x].0, key));
                    }
                }
            }
        }
        self.entries = entries;
        proof {
            let after = self@;
            lemma_attributes(after);
            assert(after[i as int] == (key, val));
            assert forall|k: Seq<char>| attributes(after).contains_key(k) == attributes(
                before,
            ).insert(key, val).contains_key(k) by {
                if names(before).contains(k) {
                    let j = names(before).index_of(k);
                    assert(names(after)[if found || j < i {
                        j
                    } else {
                        j + 1
                    }] == k);
                }
                if names(after).contains(k) && k != key {
                    let j = names(after).index_of(k);
                    assert(names(before)[if found || j < i {
                        j
                    } else {
                        j - 1
                    }] == k);
                }
                assert(names(after)[i as int] == key);
            }
            assert forall|k: Seq<char>| #[trigger] attributes(after).contains_key(k) implies attributes(
                after,
            )[k] == attributes(before).insert(key, val)[k] by {
                let j = names(after).index_of(k);
                assert(after[j].0 == k);
                if k != key {
                    let b = if found || j < i {
                        j
                    } else {
                        j - 1
                    };
                    assert(before[b] == after[j]);
                } else if j != i {
                    let (lo, hi) = if j < i {
                        (j, i as int)
                    } else {
                        (i as int, j)
                    };
                    assert(text::lex_less(names(after)[lo], names(after)[hi]));
                    text::lemma_lex_less_total(k, k);
                }
            }
            assert(attributes(after) =~= attributes(before).insert(key, val));
        }
    }
}

/// A copy of a byte string.
fn copy_bytes(b: &Vec<u8>) -> (r: Vec<u8>)
    ensures
        r@ == b@,
{
    let mut r: Vec<u8> = Vec::new();
    let mut i: usize = 0;
    while i < b.len()
        invariant
            i <= b.len(),
            r@ == b@.take(i as int),
        decreases b.len() - i,
    {
        r.push(b[i]);
        assert(b@.take(i + 1) =~= b@.take(i as int).push(b@[i as int]));
        i = i + 1;
    }
    assert(b@.take(i as int) =~= b@);
    r
}

fn copy_blobs(v: &Vec<Vec<u8>>) -> (r: Vec<Vec<u8>>)
    ensures
        blobs(r@) == blobs(v@),
{
    let mut r: Vec<Vec<u8>> = Vec::new();
    let mut i: usize = 0;
    assert(blobs(r@) =~= blobs(v@).take(0));
    while i < v.len()
        invariant
            i <= v.len(),
            blobs(r@) == blobs(v@).take(i as int),
        decreases v.len() - i,
    {
        let ghost before = r@;
        r.push(copy_bytes(&v[i]));
        assert(blobs(r@) =~= blobs(before).push(v@[i as int]@));
        assert(blobs(v@).take(i + 1) =~= blobs(v@).take(i as int).push(v@[i as int]@));
        i = i + 1;
    }
    assert(blobs(v@).take(i as int) =~= blobs(v@));
    r
}

fn copy_value(av: &AttrValue) -> (r: AttrValue)
    ensures
        r@ == av@,
    decreases av,
{
    match av {
        AttrValue::S(s) => AttrValue::S(s.clone()),
        AttrValue::N(n) => AttrValue::N(n.clone()),
        AttrValue::Bool(b) => AttrValue::Bool(*b),
        AttrValue::Null => AttrValue::Null,
        AttrValue::B(b) => AttrValue::B(copy_bytes(b)),
        AttrValue::M(m) => AttrValue::M(copy_item(m)),
        AttrValue::L(l) => AttrValue::L(copy_values(l)),
        AttrValue::Ss(s) => AttrValue::Ss(clone_strings(s)),
        AttrValue::Ns(n) => AttrValue::Ns(clone_strings(n)),
        AttrValue::Bs(b) => AttrValue::Bs(copy_blobs(b)),
    }
}

fn copy_values(l: &Vec<AttrValue>) -> (r: Vec<AttrValue>)
    ensures
        attr_models(r@) == attr_models(l@),
    decreases l,
{
    let mut r: Vec<AttrValue> = Vec::new();
    let mut i: usize = 0;
    while i < l.len()
        invariant
            i <= l.len(),
            attr_models(r@) == attr_models(l@.take(i as int)),
        decreases l.len() - i,
    {
        let ghost before = r@;
        r.push(copy_value(&l[i]));
        assert(r@.drop_last() =~= before);
        assert(l@.take(i + 1).drop_last() =~= l@.take(i as int));
        i = i + 1;
    }
    assert(l@.take(i as int) =~= l@);
    r
}

fn copy_item(m: &Item) -> (r: Item)
    ensures
        r@ == m@,
    decreases m,
{
    proof {
        use_type_invariant(m);
    }
    let mut entries: Vec<(String, AttrValue)> = Vec::new();
    let mut i: usize = 0;
    while i < m.entries.len()
        invariant
            i <= m.entries.len(),
            pair_models(entries@) == pair_models(m.entries@.take(i as int)),
        decreases m.entries.len() - i,
    {
        let ghost before = entries@;
        let value = copy_value(&m.entries[i].1);
        entries.push((m.entries[i].0.clone(), value));
        assert(entries@.drop_last() =~= before);
        assert(m.entries@.take(i + 1).drop_last() =~= m.entries@.take(i as int));
        i = i + 1;
    }
    assert(m.entries@.take(i as int) =~= m.entries@);
    Item { entries }
}

impl Clone for AttrValue {
    fn clone(&self) -> (r: Self)
        ensures
            r@ == self@,
    {
        copy_value(self)
    }
}

impl Clone for Item {
    fn clone(&self) -> (r: Self)
        ensures
            r@ == self@,
    {
        copy_item(self)
    }
}

/// A typed change record of a stream.
#[derive(Debug, PartialEq, Eq)]
pub struct StreamRecord {
    /// INSERT, MODIFY or REMOVE.
    pub event_name: Option<String>,
    pub sequence_number: Option<String>,
    pub size_bytes: Option<i64>,
    /// KEYS_ONLY, NEW_IMAGE, OLD_IMAGE or NEW_AND_OLD_IMAGES.
    pub stream_view_type: Option<String>,
    /// The key attributes of the changed item.
    pub keys: Item,
    /// The item after the change.
    pub new_image: Option<Item>,
    /// The item before the change.
    pub old_image: Option<Item>,
}

/// The contents of a change record.
pub struct StreamModel {
    pub event_name: Option<Seq<char>>,
    pub sequence_number: Option<Seq<char>>,
    pub size_bytes: Option<i64>,
    pub stream_view_type: Option<Seq<char>>,
    pub keys: Seq<(Seq<char>, AttrModel)>,
    pub new_image: Option<Seq<(Seq<char>, AttrModel)>>,
    pub old_image: Option<Seq<(Seq<char>, AttrModel)>>,
}

/// The contents of an optional item.
pub open spec fn image_model(i: Option<Item>) -> Option<Seq<(Seq<char>, AttrModel)>> {
    match i {
        Some(x) => Some(x@),
        None => None,
    }
}

impl View for StreamRecord {
    type V = StreamModel;

    open spec fn view(&self) -> StreamModel {
        StreamModel {
            event_name: collections::optional_text(self.event_name),
            sequence_number: collections::optional_text(self.sequence_number),
            size_bytes: self.size_bytes,
            stream_view_type: collections::optional_text(self.stream_view_type),
            keys: self.keys@,
            new_image: image_model(self.new_image),
            old_image: image_model(self.old_image),
        }
    }
}

/// The record without contents.
pub open spec fn blank() -> StreamModel {
    StreamModel {
        event_name: None,
        sequence_number: None,
        size_bytes: None,
        stream_view_type: None,
        keys: Seq::empty(),
        new_image: None,
        old_image: None,
    }
}

impl Default for StreamRecord {
    fn default() -> (r: Self)
        ensures
            r@ == blank(),
    {
        StreamRecord {
            event_name: None,
            sequence_number: None,
            size_bytes: None,
            stream_view_type: None,
            keys: Item::new(),
            new_image: None,
            old_image: None,
        }
    }
}

impl Clone for StreamRecord {
    fn clone(&self) -> (r: Self)
        ensures
            r@ == self@,
    {
        StreamRecord {
            event_name: clone_optional(&self.event_name),
            sequence_number: clone_optional(&self.sequence_number),
            size_bytes: self.size_bytes,
            stream_view_type: clone_optional(&self.stream_view_type),
            keys: copy_item(&self.keys),
            new_image: copy_image(&self.new_image),
            old_image: copy_image(&self.old_image),
        }
    }
}

fn copy_image(i: &Option<Item>) -> (r: Option<Item>)
    ensures
        image_model(r) == image_model(*i),
{
    match i {
        Some(x) => Some(copy_item(x)),
        None => None,
    }
}

/// An image without attributes counts as absent.
pub open spec fn present(i: Option<Seq<(Seq<char>, AttrModel)>>) -> Option<
    Seq<(Seq<char>, AttrModel)>,
> {
    match i {
        Some(s) if s.len() > 0 => i,
        _ => None,
    }
}

fn present_image(i: Option<Item>) -> (r: Option<Item>)
    ensures
        image_model(r) == present(image_model(i)),
{
    match i {
        Some(x) => if x.is_empty() {
            None
        } else {
            Some(x)
        },
        None => None,
    }
}

impl StreamRecord {
    /// The change record made of the parts that a stream returns: keys that are
    /// missing are empty, and an empty image is an absent one.
    pub fn from_parts(
        event_name: Option<String>,
        sequence_number: Option<String>,
        size_bytes: Option<i64>,
        stream_view_type: Option<String>,
        keys: Option<Item>,
        new_image: Option<Item>,
        old_image: Option<Item>,
    ) -> (r: StreamRecord)
        ensures
            r@ == (StreamModel {
                event_name: collections::optional_text(event_name),
                sequence_number: collections::optional_text(sequence_number),
                size_bytes,
                stream_view_type: collections::optional_text(stream_view_type),
                keys: match keys {
                    Some(k) => k@,
                    None => Seq::empty(),
                },
                new_image: present(image_model(new_image)),
                old_image: present(image_model(old_image)),
            }),
    {
        let keys = match keys {
            Some(k) => k,
            None => Item::new(),
        };
        StreamRecord {
            event_name,
            sequence_number,
            size_bytes,
            stream_view_type,
            keys,
            new_image: present_image(new_image),
            old_image: present_image(old_image),
        }
    }
}

/// A value holds what it is made of: texts, numbers, truth values and bytes as
/// they stand, and lists, sets and maps member by member, in order.
pub proof fn law_a_value_holds_what_it_is_made_of(av: AttrValue, i: int)
    ensures
        match av {
            AttrValue::S(s) => av@ == AttrModel::S(s@),
            AttrValue::N(n) => av@ == AttrModel::N(n@),
            AttrValue::Bool(b) => av@ == AttrModel::Bool(b),
            AttrValue::Null => av@ == AttrModel::Null,
            AttrValue::B(b) => av@ == AttrModel::B(b@),
            AttrValue::L(l) => av@ is L && av@->L_0.len() == l@.len() && (0 <= i < l@.len()
                ==> av@->L_0[i] == l@[i]@),
            AttrValue::M(m) => av@ is M && av@->M_0.len() == m.pairs().len() && (0 <= i
                < m.pairs().len() ==> av@->M_0[i].0 == m.pairs()[i].0@ && av@->M_0[i].1
                == m.pairs()[i].1@),
            AttrValue::Ss(s) => av@ is Ss && av@->Ss_0.len() == s@.len() && (0 <= i < s@.len()
                ==> av@->Ss_0[i] == s@[i]@),
            AttrValue::Ns(s) => av@ is Ns && av@->Ns_0.len() == s@.len() && (0 <= i < s@.len()
                ==> av@->Ns_0[i] == s@[i]@),
            AttrValue::Bs(s) => av@ is Bs && av@->Bs_0.len() == s@.len() && (0 <= i < s@.len()
                ==> av@->Bs_0[i] == s@[i]@),
        },
{
    match av {
        AttrValue::L(l) => {
            lemma_attr_models(l@);
        },
        AttrValue::M(m) => {
            lemma_pair_models(m.pairs());
        },
        _ => {},
    }
}

/// An item has the attributes that it lists, with their values, and no others.
pub proof fn law_an_item_has_the_attributes_it_lists(
    s: Seq<(Seq<char>, AttrModel)>,
    name: Seq<char>,
    i: int,
)
    requires
        forall|a: int, b: int|
            0 <= a < b < s.len() ==> text::lex_less((#[trigger] s[a]).0, (#[trigger] s[b]).0),
    ensures
        attributes(s).contains_key(name) <==> exists|k: int|
            0 <= k < s.len() && (#[trigger] s[k]).0 == name,
        0 <= i < s.len() ==> attributes(s)[s[i].0] == s[i].1,
{
    assert forall|a: int, b: int| 0 <= a < b < names(s).len() implies text::lex_less(
        #[trigger] names(s)[a],
        #[trigger] names(s)[b],
    ) by {
        assert(text::lex_less(s[a].0, s[b].0));
    }
    lemma_attributes(s);
    if names(s).contains(name) {
        let k = names(s).index_of(name);
        assert(s[k].0 == name);
    }
    if exists|k: int| 0 <= k < s.len() && (#[trigger] s[k]).0 == name {
        let k = choose|k: int| 0 <= k < s.len() && (#[trigger] s[k]).0 == name;
        assert(names(s)[k] == name);
    }
}

/// An image with attributes is kept as it is; one without any, or none, is none.
/// The record without contents has no text, no number, no key and no image.
pub proof fn law_only_empty_images_are_dropped(image: Seq<(Seq<char>, AttrModel)>)
    ensures
        image.len() > 0 ==> present(Some(image)) == Some(image),
        image.len() == 0 ==> present(Some(image)) is None,
        present(None) is None,
        blank().event_name is None,
        blank().sequence_number is None,
        blank().size_bytes is None,
        blank().stream_view_type is None,
        blank().keys.len() == 0,
        blank().new_image is None,
        blank().old_image is None,
{
}

/// A change record is what its fields say.
pub proof fn law_a_change_record_is_as_it_stands(r: StreamRecord)
    ensures
        r@.event_name == (match r.event_name {
            Some(s) => Some(s@),
            None => None,
        }),
        r@.sequence_number == (match r.sequence_number {
            Some(s) => Some(s@),
            None => None,
        }),
        r@.size_bytes == r.size_bytes,
        r@.stream_view_type == (match r.stream_view_type {
            Some(s) => Some(s@),
            None => None,
        }),
        r@.keys == r.keys@,
        r@.new_image == (match r.new_image {
            Some(i) => Some(i@),
            None => None,
        }),
        r@.old_image == (match r.old_image {
            Some(i) => Some(i@),
            None => None,
        }),
{
}

} // verus!
