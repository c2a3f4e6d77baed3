//! JSON views of attribute values: plain values, or the canonical DynamoDB JSON
//! that the AWS SDKs consume.

use base64::Engine as _;

use vstd::prelude::*;

use crate::collections;
use crate::record::{AttrModel, AttrValue, Item};
use crate::record;
use crate::text;

verus! {

/// A JSON value. Numbers do not occur: DynamoDB numbers are kept as text.
pub enum Json {
    Null,
    Bool(bool),
    Text(Seq<char>),
    Array(Seq<Json>),
    Object(Map<Seq<char>, Json>),
}

/// The JSON value of the `serde_json` crate.
#[verifier::external_type_specification]
#[verifier::external_body]
pub struct ExValue(serde_json::Value);

/// What a `serde_json::Value` holds.
pub uninterp spec fn json_of(v: serde_json::Value) -> Json;

/// What some values of `serde_json` hold.
pub open spec fn jsons_of(s: Seq<serde_json::Value>) -> Seq<Json> {
    s.map_values(|v: serde_json::Value| json_of(v))
}

/// The members of an object that is made of some pairs.
pub open spec fn members_of(s: Seq<(String, serde_json::Value)>) -> Map<Seq<char>, Json>
    decreases s.len(),
{
    if s.len() == 0 {
        Map::empty()
    } else {
        members_of(s.drop_last()).insert(s.last().0@, json_of(s.last().1))
    }
}

/// `serde_json::Value::Null` holds the JSON null.
#[verifier::external_body]
fn json_null() -> (v: serde_json::Value)
    ensures
        json_of(v) == Json::Null,
{
    serde_json::Value::Null
}

/// `serde_json::Value::Bool` holds the boolean it is made of.
#[verifier::external_body]
fn json_bool(b: bool) -> (v: serde_json::Value)
    ensures
        json_of(v) == Json::Bool(b),
{
    serde_json::Value::Bool(b)
}

/// `serde_json::Value::String` holds the text it is made of.
#[verifier::external_body]
fn json_text(s: String) -> (v: serde_json::Value)
    ensures
        json_of(v) == Json::Text(s@),
{
    serde_json::Value::String(s)
}

/// `serde_json::Value::Array` holds the values it is made of, in order.
#[verifier::external_body]
fn json_array(items: Vec<serde_json::Value>) -> (v: serde_json::Value)
    ensures
        json_of(v) == Json::Array(jsons_of(items@)),
{
    serde_json::Value::Array(items)
}

/// `serde_json::Value::Object`, over a `serde_json::Map` collected from pairs
/// with distinct names, holds the value of each name.
#[verifier::external_body]
fn json_object(members: Vec<(String, serde_json::Value)>) -> (v: serde_json::Value)
    requires
        collections::entry_keys(members@).no_duplicates(),
    ensures
        json_of(v) == Json::Object(members_of(members@)),
{
    serde_json::Value::Object(members.into_iter().collect())
}

/// The byte at position `i`, zero behind the end.
pub open spec fn byte_at(b: Seq<u8>, i: int) -> int {
    if 0 <= i < b.len() {
        b[i] as int
    } else {
        0
    }
}

/// The digit of standard Base64 with the value `v`.
pub open spec fn base64_digit(v: int) -> char {
    "ABCDEFGHIJKLMNOPQRSTUVWXYZabcdefghijklmnopqrstuvwxyz0123456789+/"@[v]
}

/// The character at position `i` of the standard Base64 encoding with padding:
/// each group of three bytes gives four digits of six bits, the highest first.
pub open spec fn base64_char(b: Seq<u8>, i: int) -> char {
    let g = 3 * (i / 4);
    let j = i % 4;
    let bits = byte_at(b, g) * 65536 + byte_at(b, g + 1) * 256 + byte_at(b, g + 2);
    if g + j > b.len() {
        '='
    } else if j == 0 {
        base64_digit(bits / 262144)
    } else if j == 1 {
        base64_digit(bits / 4096 % 64)
    } else if j == 2 {
        base64_digit(bits / 64 % 64)
    } else {
        base64_digit(bits % 64)
    }
}

/// The length of the Base64 encoding of `n` bytes.
pub open spec fn base64_len(n: int) -> int {
    4 * ((n + 2) / 3)
}

/// The standard Base64 encoding with padding.
pub open spec fn base64_text(b: Seq<u8>) -> Seq<char> {
    Seq::new(base64_len(b.len() as int) as nat, |i: int| base64_char(b, i))
}

/// The encoding of a byte string of this length fits into memory.
pub open spec fn is_encodable(b: Seq<u8>) -> bool {
    base64_len(b.len() as int) <= isize::MAX
}

/// `base64::Engine::encode` of `base64::engine::general_purpose::STANDARD` gives
/// the standard Base64 encoding with padding. It panics if the encoding does not
/// fit into memory.
#[verifier::external_body]
fn b64(bytes: &Vec<u8>) -> (r: String)
    requires
        is_encodable(bytes@),
    ensures
        r@ == base64_text(bytes@),
{
    base64::engine::general_purpose::STANDARD.encode(bytes)
}

/// How an image is shown as JSON.
#[derive(Clone, Copy, Debug, PartialEq, Eq, Structural)]
pub enum RecordFormat {
    /// Plain values: text and numbers as strings, binary values in Base64, no
    /// type wrappers.
    Native,
    /// Canonical DynamoDB JSON: every value under the name of its type.
    DdbJson,
}

impl Default for RecordFormat {
    fn default() -> (f: Self)
        ensures
            f == RecordFormat::Native,
    {
        RecordFormat::Native
    }
}

/// Every one of some byte strings can be encoded.
pub open spec fn blobs_fit(s: Seq<Seq<u8>>) -> bool {
    forall|i: int| 0 <= i < s.len() ==> is_encodable(#[trigger] s[i])
}

/// Every binary value in it can be encoded.
pub open spec fn fits(m: AttrModel) -> bool
    decreases m,
{
    match m {
        AttrModel::B(b) => is_encodable(b),
        AttrModel::M(p) => pairs_fit(p),
        AttrModel::L(l) => all_fit(l),
        AttrModel::Bs(b) => blobs_fit(b),
        _ => true,
    }
}

/// Every binary value in a list can be encoded.
pub open spec fn all_fit(s: Seq<AttrModel>) -> bool
    decreases s,
{
    s.len() == 0 || (all_fit(s.drop_last()) && fits(s.last()))
}

/// Every binary value in an item can be encoded.
pub open spec fn pairs_fit(s: Seq<(Seq<char>, AttrModel)>) -> bool
    decreases s,
{
    s.len() == 0 || (pairs_fit(s.drop_last()) && fits(s.last().1))
}

/// Some texts as JSON strings.
pub open spec fn text_array(s: Seq<Seq<char>>) -> Json {
    Json::Array(s.map_values(|t: Seq<char>| Json::Text(t)))
}

/// Some byte strings as JSON strings.
pub open spec fn blob_array(s: Seq<Seq<u8>>) -> Json {
    Json::Array(s.map_values(|b: Seq<u8>| Json::Text(base64_text(b))))
}

/// An attribute value as plain JSON. Numbers stay text, to keep their precision.
pub open spec fn native(m: AttrModel) -> Json
    decreases m,
{
    match m {
        AttrModel::S(s) => Json::Text(s),
        AttrModel::N(n) => Json::Text(n),
        AttrModel::Bool(b) => Json::Bool(b),
        AttrModel::Null => Json::Null,
        AttrModel::B(b) => Json::Text(base64_text(b)),
        AttrModel::M(p) => Json::Object(native_members(p)),
        AttrModel::L(l) => Json::Array(native_items(l)),
        AttrModel::Ss(s) => text_array(s),
        AttrModel::Ns(n) => text_array(n),
        AttrModel::Bs(b) => blob_array(b),
    }
}

/// A list as plain JSON values.
pub open spec fn native_items(s: Seq<AttrModel>) -> Seq<Json>
    decreases s,
{
    if s.len() == 0 {
        Seq::empty()
    } else {
        native_items(s.drop_last()).push(native(s.last()))
    }
}

/// The attributes of an item as plain JSON members.
pub open spec fn native_members(s: Seq<(Seq<char>, AttrModel)>) -> Map<Seq<char>, Json>
    decreases s,
{
    if s.len() == 0 {
        Map::empty()
    } else {
        native_members(s.drop_last()).insert(s.last().0, native(s.last().1))
    }
}

/// A value under the name of its type.
pub open spec fn typed(tag: Seq<char>, v: Json) -> Json {
    Json::Object(Map::<Seq<char>, Json>::empty().insert(tag, v))
}

/// An attribute value as canonical DynamoDB JSON.
pub open spec fn ddb(m: AttrModel) -> Json
    decreases m,
{
    match m {
        AttrModel::S(s) => typed("S"@, Json::Text(s)),
        AttrModel::N(n) => typed("N"@, Json::Text(n)),
        AttrModel::Bool(b) => typed("BOOL"@, Json::Bool(b)),
        AttrModel::Null => typed("NULL"@, Json::Bool(true)),
        AttrModel::B(b) => typed("B"@, Json::Text(base64_text(b))),
        AttrModel::M(p) => typed("M"@, Json::Object(ddb_members(p))),
        AttrModel::L(l) => typed("L"@, Json::Array(ddb_items(l))),
        AttrModel::Ss(s) => typed("SS"@, text_array(s)),
        AttrModel::Ns(n) => typed("NS"@, text_array(n)),
        AttrModel::Bs(b) => typed("BS"@, blob_array(b)),
    }
}

/// A list as canonical DynamoDB JSON values.
pub open spec fn ddb_items(s: Seq<AttrModel>) -> Seq<Json>
    decreases s,
{
    if s.len() == 0 {
        Seq::empty()
    } else {
        ddb_items(s.drop_last()).push(ddb(s.last()))
    }
}

/// The attributes of an item as canonical DynamoDB JSON members.
pub open spec fn ddb_members(s: Seq<(Seq<char>, AttrModel)>) -> Map<Seq<char>, Json>
    decreases s,
{
    if s.len() == 0 {
        Map::empty()
    } else {
        ddb_members(s.drop_last()).insert(s.last().0, ddb(s.last().1))
    }
}

/// An attribute value in the given format.
pub open spec fn shown(m: AttrModel, f: RecordFormat) -> Json {
    match f {
        RecordFormat::Native => native(m),
        RecordFormat::DdbJson => ddb(m),
    }
}

/// The members of an item in the given format.
pub open spec fn shown_members(s: Seq<(Seq<char>, AttrModel)>, f: RecordFormat) -> Map<
    Seq<char>,
    Json,
> {
    match f {
        RecordFormat::Native => native_members(s),
        RecordFormat::DdbJson => ddb_members(s),
    }
}

/// The items of a list in the given format.
pub open spec fn shown_items(s: Seq<AttrModel>, f: RecordFormat) -> Seq<Json> {
    match f {
        RecordFormat::Native => native_items(s),
        RecordFormat::DdbJson => ddb_items(s),
    }
}

/// A value under the name of its type.
fn tagged(tag: &str, v: serde_json::Value) -> (r: serde_json::Value)
    ensures
        json_of(r) == typed(tag@, json_of(v)),
{
    let mut members: Vec<(String, serde_json::Value)> = Vec::new();
    members.push((tag.to_owned(), v));
    proof {
        reveal_with_fuel(members_of, 2);
        assert(members@.drop_last() =~= Seq::empty());
        assert(members_of(members@) =~= Map::<Seq<char>, Json>::empty().insert(tag@, json_of(v)));
    }
    json_object(members)
}

fn texts_json(v: &Vec<String>) -> (r: serde_json::Value)
    ensures
        json_of(r) == text_array(collections::texts(v@)),
{
    let ghost image = |t: Seq<char>| Json::Text(t);
    let ghost t = collections::texts(v@);
    let mut items: Vec<serde_json::Value> = Vec::new();
    let mut i: usize = 0;
    assert(jsons_of(items@) =~= t.take(0).map_values(image));
    while i < v.len()
        invariant
            i <= v.len(),
            t == collections::texts(v@),
            image == (|t: Seq<char>| Json::Text(t)),
            jsons_of(items@) == t.take(i as int).map_values(image),
        decreases v.len() - i,
    {
        proof {
            collections::lemma_map_step(t, i as int, image);
        }
        let ghost before = items@;
        items.push(json_text(v[i].clone()));
        assert(jsons_of(items@) =~= jsons_of(before).push(Json::Text(v@[i as int]@)));
        i = i + 1;
    }
    assert(t.take(i as int) =~= t);
    json_array(items)
}

fn blobs_json(v: &Vec<Vec<u8>>) -> (r: serde_json::Value)
    requires
        blobs_fit(record::blobs(v@)),
    ensures
        json_of(r) == blob_array(record::blobs(v@)),
{
    let ghost image = |b: Seq<u8>| Json::Text(base64_text(b));
    let ghost t = record::blobs(v@);
    let mut items: Vec<serde_json::Value> = Vec::new();
    let mut i: usize = 0;
    assert(jsons_of(items@) =~= t.take(0).map_values(image));
    while i < v.len()
        invariant
            i <= v.len(),
            t == record::blobs(v@),
            forall|i: int| 0 <= i < v.len() ==> is_encodable(#[trigger] t[i]),
            image == (|b: Seq<u8>| Json::Text(base64_text(b))),
            jsons_of(items@) == t.take(i as int).map_values(image),
        decreases v.len() - i,
    {
        proof {
            collections::lemma_map_step(t, i as int, image);
            assert(is_encodable(t[i as int]));
        }
        let ghost before = items@;
        items.push(json_text(b64(&v[i])));
        assert(jsons_of(items@) =~= jsons_of(before).push(image(t[i as int])));
        i = i + 1;
    }
    assert(t.take(i as int) =~= t);
    json_array(items)
}

/// An attribute value as a plain JSON value, without type wrappers.
pub fn to_native_json(av: &AttrValue) -> (v: serde_json::Value)
    requires
        fits(av@),
    ensures
        json_of(v) == native(av@),
    decreases av, 1int,
{
    match av {
        AttrValue::S(s) => json_text(s.clone()),
        AttrValue::N(n) => json_text(n.clone()),
        AttrValue::Bool(b) => json_bool(*b),
        AttrValue::Null => json_null(),
        AttrValue::B(b) => json_text(b64(b)),
        AttrValue::M(m) => json_object(members(m, RecordFormat::Native)),
        AttrValue::L(l) => json_array(items(l, RecordFormat::Native)),
        AttrValue::Ss(s) => texts_json(s),
        AttrValue::Ns(n) => texts_json(n),
        AttrValue::Bs(b) => blobs_json(b),
    }
}

/// An attribute value as canonical DynamoDB JSON.
pub fn to_ddb_json(av: &AttrValue) -> (v: serde_json::Value)
    requires
        fits(av@),
    ensures
        json_of(v) == ddb(av@),
    decreases av, 1int,
{
    match av {
        AttrValue::S(s) => tagged("S", json_text(s.clone())),
        AttrValue::N(n) => tagged("N", json_text(n.clone())),
        AttrValue::Bool(b) => tagged("BOOL", json_bool(*b)),
        AttrValue::Null => tagged("NULL", json_bool(true)),
        AttrValue::B(b) => tagged("B", json_text(b64(b))),
        AttrValue::M(m) => tagged("M", json_object(members(m, RecordFormat::DdbJson))),
        AttrValue::L(l) => tagged("L", json_array(items(l, RecordFormat::DdbJson))),
        AttrValue::Ss(s) => tagged("SS", texts_json(s)),
        AttrValue::Ns(n) => tagged("NS", texts_json(n)),
        AttrValue::Bs(b) => tagged("BS", blobs_json(b)),
    }
}

fn converted(av: &AttrValue, f: RecordFormat) -> (v: serde_json::Value)
    requires
        fits(av@),
    ensures
        json_of(v) == shown(av@, f),
    decreases av, 2int,
{
    match f {
        RecordFormat::Native => to_native_json(av),
        RecordFormat::DdbJson => to_ddb_json(av),
    }
}

fn items(l: &Vec<AttrValue>, f: RecordFormat) -> (r: Vec<serde_json::Value>)
    requires
        all_fit(record::attr_models(l@)),
    ensures
        jsons_of(r@) == shown_items(record::attr_models(l@), f),
    decreases l, 3int,
{
    let ghost t = record::attr_models(l@);
    let mut r: Vec<serde_json::Value> = Vec::new();
    let mut i: usize = 0;
    proof {
        record::lemma_attr_models(l@);
    }
    assert(jsons_of(r@) =~= shown_items(t.take(0), f));
    while i < l.len()
        invariant
            i <= l.len(),
            t == record::attr_models(l@),
            t.len() == l.len(),
            all_fit(t),
            forall|k: int| 0 <= k < l.len() ==> #[trigger] t[k] == l@[k]@,
            jsons_of(r@) == shown_items(t.take(i as int), f),
        decreases l.len() - i,
    {
        proof {
            lemma_all_fit(t, i as int);
            assert(t.take(i + 1).drop_last() =~= t.take(i as int));
        }
        let ghost before = r@;
        r.push(converted(&l[i], f));
        assert(jsons_of(r@) =~= jsons_of(before).push(shown(t[i as int], f)));
        i = i + 1;
    }
    assert(t.take(i as int) =~= t);
    r
}

fn members(m: &Item, f: RecordFormat) -> (r: Vec<(String, serde_json::Value)>)
    requires
        pairs_fit(m@),
    ensures
        members_of(r@) == shown_members(m@, f),
        collections::entry_keys(r@).no_duplicates(),
    decreases m, 3int,
{
    let ghost t = m@;
    let mut r: Vec<(String, serde_json::Value)> = Vec::new();
    let mut i: usize = 0;
    let n = m.len();
    while i < n
        invariant
            i <= n,
            n == t.len(),
            t == m@,
            pairs_fit(t),
            r.len() == i,
            forall|k: int| 0 <= k < i ==> (#[trigger] r@[k]).0@ == t[k].0,
            i > 0 ==> record::ascending(record::names(t)),
            members_of(r@) == shown_members(t.take(i as int), f),
        decreases n - i,
    {
        proof {
            lemma_pairs_fit(t, i as int);
            assert(t.take(i + 1).drop_last() =~= t.take(i as int));
        }
        let (name, value) = m.entry(i);
        let ghost before = r@;
        let v = converted(value, f);
        r.push((name.clone(), v));
        assert(r@.drop_last() =~= before);
        i = i + 1;
    }
    assert(t.take(i as int) =~= t);
    proof {
        let keys = collections::entry_keys(r@);
        assert forall|a: int, b: int| 0 <= a < b < keys.len() implies keys[a] != keys[b] by {
            assert(text::lex_less(record::names(t)[a], record::names(t)[b]));
            text::lemma_lex_less_total(keys[a], keys[b]);
            assert(r@[a].0@ == t[a].0 && r@[b].0@ == t[b].0);
        }
    }
    r
}

proof fn lemma_all_fit(s: Seq<AttrModel>, i: int)
    requires
        all_fit(s),
        0 <= i < s.len(),
    ensures
        fits(s[i]),
    decreases s.len(),
{
    if i < s.len() - 1 {
        lemma_all_fit(s.drop_last(), i);
    }
}

proof fn lemma_pairs_fit(s: Seq<(Seq<char>, AttrModel)>, i: int)
    requires
        pairs_fit(s),
        0 <= i < s.len(),
    ensures
        fits(s[i].1),
    decreases s.len(),
{
    if i < s.len() - 1 {
        lemma_pairs_fit(s.drop_last(), i);
    }
}

/// An item as a JSON object in the given format.
pub fn item_to_json(item: &Item, fmt: RecordFormat) -> (v: serde_json::Value)
    requires
        pairs_fit(item@),
    ensures
        json_of(v) == Json::Object(shown_members(item@, fmt)),
{
    json_object(members(item, fmt))
}

/// Can every binary value in it be encoded?
pub fn encodable(av: &AttrValue) -> (r: bool)
    ensures
        r == fits(av@),
    decreases av, 1int,
{
    match av {
        AttrValue::B(b) => blob_encodable(b),
        AttrValue::M(m) => item_encodable(m),
        AttrValue::L(l) => list_encodable(l),
        AttrValue::Bs(b) => blobs_encodable(b),
        _ => true,
    }
}

fn list_encodable(l: &Vec<AttrValue>) -> (r: bool)
    ensures
        r == all_fit(record::attr_models(l@)),
    decreases l, 2int,
{
    let ghost t = record::attr_models(l@);
    proof {
        record::lemma_attr_models(l@);
    }
    let mut i: usize = 0;
    while i < l.len()
        invariant
            i <= l.len(),
            t == record::attr_models(l@),
            t.len() == l.len(),
            forall|k: int| 0 <= k < l.len() ==> #[trigger] t[k] == l@[k]@,
            all_fit(t.take(i as int)),
        decreases l.len() - i,
    {
        assert(t.take(i + 1).drop_last() =~= t.take(i as int));
        assert(t[i as int] == l@[i as int]@);
        if !encodable(&l[i]) {
            proof {
                if all_fit(t) {
                    lemma_all_fit(t, i as int);
                }
            }
            return false;
        }
        i = i + 1;
    }
    assert(t.take(i as int) =~= t);
    true
}

fn blobs_encodable(b: &Vec<Vec<u8>>) -> (r: bool)
    ensures
        r == blobs_fit(record::blobs(b@)),
{
    let mut i: usize = 0;
    while i < b.len()
        invariant
            i <= b.len(),
            forall|k: int| 0 <= k < i ==> is_encodable(#[trigger] record::blobs(b@)[k]),
        decreases b.len() - i,
    {
        assert(record::blobs(b@)[i as int] == b@[i as int]@);
        if !blob_encodable(&b[i]) {
            return false;
        }
        i = i + 1;
    }
    true
}

fn blob_encodable(b: &Vec<u8>) -> (r: bool)
    ensures
        r == is_encodable(b@),
{
    b.len() <= (isize::MAX as usize) / 4 * 3
}

/// Can every binary value in the item be encoded?
pub fn item_encodable(m: &Item) -> (r: bool)
    ensures
        r == pairs_fit(m@),
    decreases m, 2int,
{
    let ghost t = m@;
    let n = m.len();
    let mut i: usize = 0;
    while i < n
        invariant
            i <= n,
            n == t.len(),
            t == m@,
            pairs_fit(t.take(i as int)),
        decreases n - i,
    {
        assert(t.take(i + 1).drop_last() =~= t.take(i as int));
        let (_, value) = m.entry(i);
        if !encodable(value) {
            proof {
                if pairs_fit(t) {
                    lemma_pairs_fit(t, i as int);
                }
            }
            return false;
        }
        i = i + 1;
    }
    assert(t.take(i as int) =~= t);
    true
}

/// The JSON object of an item has exactly the attributes of the item, each with
/// its value in the given format.
pub proof fn law_object_holds_every_attribute(s: Seq<(Seq<char>, AttrModel)>, f: RecordFormat)
    ensures
        shown_members(s, f) == record::attributes(s).map_values(|m: AttrModel| shown(m, f)),
    decreases s.len(),
{
    if s.len() == 0 {
        assert(shown_members(s, f) =~= record::attributes(s).map_values(
            |m: AttrModel| shown(m, f),
        ));
    } else {
        law_object_holds_every_attribute(s.drop_last(), f);
        assert(shown_members(s, f) =~= record::attributes(s).map_values(
            |m: AttrModel| shown(m, f),
        ));
    }
}

/// In canonical DynamoDB JSON every value is an object with one member, whose
/// name is that of the type of the value.
pub proof fn law_ddb_json_names_the_type(m: AttrModel)
    ensures
        ddb(m) == (match m {
            AttrModel::S(_) => typed("S"@, native(m)),
            AttrModel::N(_) => typed("N"@, native(m)),
            AttrModel::Bool(_) => typed("BOOL"@, native(m)),
            AttrModel::Null => typed("NULL"@, Json::Bool(true)),
            AttrModel::B(_) => typed("B"@, native(m)),
            AttrModel::M(p) => typed("M"@, Json::Object(ddb_members(p))),
            AttrModel::L(l) => typed("L"@, Json::Array(ddb_items(l))),
            AttrModel::Ss(_) => typed("SS"@, native(m)),
            AttrModel::Ns(_) => typed("NS"@, native(m)),
            AttrModel::Bs(_) => typed("BS"@, native(m)),
        }),
{
}

/// `j` is an object with one member, `v` under the name `tag`.
pub open spec fn holds_one(j: Json, tag: Seq<char>, v: Json) -> bool {
    j matches Json::Object(o) && o.contains_pair(tag, v) && forall|k: Seq<char>| #[trigger]
        o.contains_key(k) ==> k == tag
}

/// `j` is an array of these texts, in order.
pub open spec fn lists_texts(j: Json, s: Seq<Seq<char>>) -> bool {
    j matches Json::Array(a) && a.len() == s.len() && forall|i: int|
        0 <= i < s.len() ==> #[trigger] a[i] == Json::Text(s[i])
}

/// `j` is an array of the Base64 encodings of these byte strings, in order.
pub open spec fn lists_blobs(j: Json, s: Seq<Seq<u8>>) -> bool {
    j matches Json::Array(a) && a.len() == s.len() && forall|i: int|
        0 <= i < s.len() ==> #[trigger] a[i] == Json::Text(base64_text(s[i]))
}

/// No map in the value names an attribute twice.
pub open spec fn is_proper(m: AttrModel) -> bool
    decreases m,
{
    match m {
        AttrModel::M(p) => {
            &&& forall|i: int, j: int| 0 <= i < j < p.len() ==> (#[trigger] p[i]).0 != (#[trigger] p[j]).0
            &&& forall|i: int| 0 <= i < p.len() ==> is_proper((#[trigger] p[i]).1)
        },
        AttrModel::L(l) => forall|i: int| 0 <= i < l.len() ==> is_proper(#[trigger] l[i]),
        _ => true,
    }
}

/// `j` says in plain JSON what the value is: a text and a number as a string, a
/// boolean as the same boolean, null as null, bytes in Base64, a map as an object
/// with the same names, and a list or a set as an array in the same order.
pub open spec fn says_plainly(j: Json, m: AttrModel) -> bool
    decreases m,
{
    match m {
        AttrModel::S(s) => j == Json::Text(s),
        AttrModel::N(n) => j == Json::Text(n),
        AttrModel::Bool(b) => if b {
            j == Json::Bool(true)
        } else {
            j == Json::Bool(false)
        },
        AttrModel::Null => j == Json::Null,
        AttrModel::B(b) => j == Json::Text(base64_text(b)),
        AttrModel::M(p) => j matches Json::Object(o) && {
            &&& forall|i: int|
                0 <= i < p.len() ==> o.contains_key((#[trigger] p[i]).0) && says_plainly(
                    o[p[i].0],
                    p[i].1,
                )
            &&& forall|k: Seq<char>| #[trigger]
                o.contains_key(k) ==> exists|i: int| 0 <= i < p.len() && (#[trigger] p[i]).0 == k
        },
        AttrModel::L(l) => j matches Json::Array(a) && a.len() == l.len() && forall|i: int|
            0 <= i < l.len() ==> says_plainly(a[i], #[trigger] l[i]),
        AttrModel::Ss(s) => lists_texts(j, s),
        AttrModel::Ns(n) => lists_texts(j, n),
        AttrModel::Bs(b) => lists_blobs(j, b),
    }
}

/// `j` says in canonical DynamoDB JSON what the value is: every value is the only
/// member of an object, under the name of its type.
pub open spec fn says_with_types(j: Json, m: AttrModel) -> bool
    decreases m,
{
    match m {
        AttrModel::S(s) => holds_one(j, "S"@, Json::Text(s)),
        AttrModel::N(n) => holds_one(j, "N"@, Json::Text(n)),
        AttrModel::Bool(b) => if b {
            holds_one(j, "BOOL"@, Json::Bool(true))
        } else {
            holds_one(j, "BOOL"@, Json::Bool(false))
        },
        AttrModel::Null => holds_one(j, "NULL"@, Json::Bool(true)),
        AttrModel::B(b) => holds_one(j, "B"@, Json::Text(base64_text(b))),
        AttrModel::M(p) => exists|o: Map<Seq<char>, Json>|
            {
                &&& #[trigger] holds_one(j, "M"@, Json::Object(o))
                &&& forall|i: int|
                    0 <= i < p.len() ==> o.contains_key((#[trigger] p[i]).0) && says_with_types(
                        o[p[i].0],
                        p[i].1,
                    )
                &&& forall|k: Seq<char>| #[trigger]
                    o.contains_key(k) ==> exists|i: int| 0 <= i < p.len() && (#[trigger] p[i]).0 == k
            },
        AttrModel::L(l) => exists|a: Seq<Json>|
            {
                &&& #[trigger] holds_one(j, "L"@, Json::Array(a))
                &&& a.len() == l.len()
                &&& forall|i: int| 0 <= i < l.len() ==> says_with_types(a[i], #[trigger] l[i])
            },
        AttrModel::Ss(s) => exists|v: Json| #[trigger]
            holds_one(j, "SS"@, v) && lists_texts(v, s),
        AttrModel::Ns(n) => exists|v: Json| #[trigger]
            holds_one(j, "NS"@, v) && lists_texts(v, n),
        AttrModel::Bs(b) => exists|v: Json| #[trigger]
            holds_one(j, "BS"@, v) && lists_blobs(v, b),
    }
}

proof fn lemma_shown_items(s: Seq<AttrModel>, f: RecordFormat)
    ensures
        shown_items(s, f).len() == s.len(),
        forall|i: int| 0 <= i < s.len() ==> shown_items(s, f)[i] == shown(#[trigger] s[i], f),
    decreases s.len(),
{
    if s.len() > 0 {
        lemma_shown_items(s.drop_last(), f);
        assert forall|i: int| 0 <= i < s.len() implies shown_items(s, f)[i] == shown(
            #[trigger] s[i],
            f,
        ) by {
            if i < s.len() - 1 {
                assert(s.drop_last()[i] == s[i]);
            }
        }
    }
}

proof fn lemma_shown_members(s: Seq<(Seq<char>, AttrModel)>, f: RecordFormat)
    requires
        forall|i: int, j: int| 0 <= i < j < s.len() ==> (#[trigger] s[i]).0 != (#[trigger] s[j]).0,
    ensures
        forall|i: int|
            0 <= i < s.len() ==> shown_members(s, f).contains_pair(
                (#[trigger] s[i]).0,
                shown(s[i].1, f),
            ),
        forall|k: Seq<char>| #[trigger]
            shown_members(s, f).contains_key(k) ==> exists|i: int|
                0 <= i < s.len() && (#[trigger] s[i]).0 == k,
    decreases s.len(),
{
    if s.len() > 0 {
        let rest = s.drop_last();
        lemma_shown_members(rest, f);
        assert forall|i: int| 0 <= i < s.len() implies shown_members(s, f).contains_pair(
            (#[trigger] s[i]).0,
            shown(s[i].1, f),
        ) by {
            if i < s.len() - 1 {
                assert(rest[i] == s[i]);
                assert(s[i].0 != s[s.len() - 1].0);
            }
        }
        assert forall|k: Seq<char>| #[trigger] shown_members(s, f).contains_key(k) implies exists|
            i: int,
        |
            0 <= i < s.len() && (#[trigger] s[i]).0 == k by {
            if k == s.last().0 {
                assert(s[s.len() - 1].0 == k);
            } else {
                assert(shown_members(rest, f).contains_key(k));
                let i = choose|i: int| 0 <= i < rest.len() && (#[trigger] rest[i]).0 == k;
                assert(s[i].0 == k);
            }
        }
    }
}

/// The plain JSON view of a value says plainly what the value is.
pub proof fn law_the_plain_view_says_what_the_value_is(m: AttrModel)
    requires
        is_proper(m),
    ensures
        says_plainly(native(m), m),
    decreases m,
{
    match m {
        AttrModel::M(p) => {
            lemma_shown_members(p, RecordFormat::Native);
            assert forall|i: int| 0 <= i < p.len() implies native_members(p).contains_key(
                (#[trigger] p[i]).0,
            ) && says_plainly(native_members(p)[p[i].0], p[i].1) by {
                assert(is_proper(p[i].1));
                assert(shown_members(p, RecordFormat::Native).contains_pair(
                    p[i].0,
                    shown(p[i].1, RecordFormat::Native),
                ));
                law_the_plain_view_says_what_the_value_is(p[i].1);
            }
            assert forall|k: Seq<char>| #[trigger]
                native_members(p).contains_key(k) implies exists|i: int|
                0 <= i < p.len() && (#[trigger] p[i]).0 == k by {
                assert(shown_members(p, RecordFormat::Native).contains_key(k));
            }
        },
        AttrModel::L(l) => {
            lemma_shown_items(l, RecordFormat::Native);
            assert(native_items(l) == shown_items(l, RecordFormat::Native));
            assert forall|i: int| 0 <= i < l.len() implies says_plainly(
                native_items(l)[i],
                #[trigger] l[i],
            ) by {
                assert(is_proper(l[i]));
                assert(shown_items(l, RecordFormat::Native)[i] == shown(l[i], RecordFormat::Native));
                law_the_plain_view_says_what_the_value_is(l[i]);
            }
        },
        _ => {},
    }
}

/// The canonical DynamoDB JSON of a value says with its type what the value is.
pub proof fn law_the_typed_view_says_what_the_value_is(m: AttrModel)
    requires
        is_proper(m),
    ensures
        says_with_types(ddb(m), m),
    decreases m,
{
    match m {
        AttrModel::M(p) => {
            let o = ddb_members(p);
            lemma_shown_members(p, RecordFormat::DdbJson);
            assert forall|i: int| 0 <= i < p.len() implies o.contains_key((#[trigger] p[i]).0)
                && says_with_types(o[p[i].0], p[i].1) by {
                assert(is_proper(p[i].1));
                assert(shown_members(p, RecordFormat::DdbJson).contains_pair(
                    p[i].0,
                    shown(p[i].1, RecordFormat::DdbJson),
                ));
                law_the_typed_view_says_what_the_value_is(p[i].1);
            }
            assert forall|k: Seq<char>| #[trigger] o.contains_key(k) implies exists|i: int|
                0 <= i < p.len() && (#[trigger] p[i]).0 == k by {
                assert(shown_members(p, RecordFormat::DdbJson).contains_key(k));
            }
            assert(holds_one(ddb(m), "M"@, Json::Object(o)));
        },
        AttrModel::L(l) => {
            let a = ddb_items(l);
            lemma_shown_items(l, RecordFormat::DdbJson);
            assert(a == shown_items(l, RecordFormat::DdbJson));
            assert forall|i: int| 0 <= i < l.len() implies says_with_types(a[i], #[trigger] l[i]) by {
                assert(is_proper(l[i]));
                assert(shown_items(l, RecordFormat::DdbJson)[i] == shown(l[i], RecordFormat::DdbJson));
                law_the_typed_view_says_what_the_value_is(l[i]);
            }
            assert(holds_one(ddb(m), "L"@, Json::Array(a)));
        },
        AttrModel::Ss(s) => {
            assert(holds_one(ddb(m), "SS"@, text_array(s)));
        },
        AttrModel::Ns(n) => {
            assert(holds_one(ddb(m), "NS"@, text_array(n)));
        },
        AttrModel::Bs(b) => {
            assert(holds_one(ddb(m), "BS"@, blob_array(b)));
        },
        _ => {},
    }
}

/// Two values are the same, maps being compared by name.
pub open spec fn is_same(a: AttrModel, b: AttrModel) -> bool
    decreases a,
{
    match (a, b) {
        (AttrModel::M(p), AttrModel::M(q)) => {
            &&& forall|i: int|
                0 <= i < p.len() ==> exists|j: int|
                    0 <= j < q.len() && (#[trigger] q[j]).0 == (#[trigger] p[i]).0 && is_same(
                        p[i].1,
                        q[j].1,
                    )
            &&& forall|j: int|
                0 <= j < q.len() ==> exists|i: int|
                    0 <= i < p.len() && (#[trigger] p[i]).0 == (#[trigger] q[j]).0
        },
        (AttrModel::L(l), AttrModel::L(k)) => l.len() == k.len() && forall|i: int|
            0 <= i < l.len() ==> is_same(#[trigger] l[i], k[i]),
        _ => a == b,
    }
}

proof fn lemma_tags()
    ensures
        "S"@.len() == 1 && "S"@[0] == 'S',
        "N"@.len() == 1 && "N"@[0] == 'N',
        "B"@.len() == 1 && "B"@[0] == 'B',
        "M"@.len() == 1 && "M"@[0] == 'M',
        "L"@.len() == 1 && "L"@[0] == 'L',
        "SS"@.len() == 2 && "SS"@[0] == 'S',
        "NS"@.len() == 2 && "NS"@[0] == 'N',
        "BS"@.len() == 2 && "BS"@[0] == 'B',
        "BOOL"@.len() == 4 && "BOOL"@[0] == 'B',
        "NULL"@.len() == 4 && "NULL"@[0] == 'N',
{
    reveal_strlit("S");
    reveal_strlit("N");
    reveal_strlit("B");
    reveal_strlit("M");
    reveal_strlit("L");
    reveal_strlit("SS");
    reveal_strlit("NS");
    reveal_strlit("BS");
    reveal_strlit("BOOL");
    reveal_strlit("NULL");
}

/// The value of a digit of standard Base64.
pub open spec fn digit_value(c: char) -> int {
    let n = c as int;
    if 'A' as int <= n <= 'Z' as int {
        n - 'A' as int
    } else if 'a' as int <= n <= 'z' as int {
        n - 'a' as int + 26
    } else if '0' as int <= n <= '9' as int {
        n - '0' as int + 52
    } else if c == '+' {
        62
    } else if c == '/' {
        63
    } else {
        -1
    }
}

#[verifier::rlimit(50)]
proof fn lemma_digit_value(v: int)
    requires
        0 <= v < 64,
    ensures
        digit_value(base64_digit(v)) == v,
{
    let t = "ABCDEFGHIJKLMNOPQRSTUVWXYZabcdefghijklmnopqrstuvwxyz0123456789+/"@;
    reveal_strlit("ABCDEFGHIJKLMNOPQRSTUVWXYZabcdefghijklmnopqrstuvwxyz0123456789+/");
    assert(t[0] == 'A');
    assert(t[1] == 'B');
    assert(t[2] == 'C');
    assert(t[3] == 'D');
    assert(t[4] == 'E');
    assert(t[5] == 'F');
    assert(t[6] == 'G');
    assert(t[7] == 'H');
    assert(t[8] == 'I');
    assert(t[9] == 'J');
    assert(t[10] == 'K');
    assert(t[11] == 'L');
    assert(t[12] == 'M');
    assert(t[13] == 'N');
    assert(t[14] == 'O');
    assert(t[15] == 'P');
    assert(t[16] == 'Q');
    assert(t[17] == 'R');
    assert(t[18] == 'S');
    assert(t[19] == 'T');
    assert(t[20] == 'U');
    assert(t[21] == 'V');
    assert(t[22] == 'W');
    assert(t[23] == 'X');
    assert(t[24] == 'Y');
    assert(t[25] == 'Z');
    assert(t[26] == 'a');
    assert(t[27] == 'b');
    assert(t[28] == 'c');
    assert(t[29] == 'd');
    assert(t[30] == 'e');
    assert(t[31] == 'f');
    assert(t[32] == 'g');
    assert(t[33] == 'h');
    assert(t[34] == 'i');
    assert(t[35] == 'j');
    assert(t[36] == 'k');
    assert(t[37] == 'l');
    assert(t[38] == 'm');
    assert(t[39] == 'n');
    assert(t[40] == 'o');
    assert(t[41] == 'p');
    assert(t[42] == 'q');
    assert(t[43] == 'r');
    assert(t[44] == 's');
    assert(t[45] == 't');
    assert(t[46] == 'u');
    assert(t[47] == 'v');
    assert(t[48] == 'w');
    assert(t[49] == 'x');
    assert(t[50] == 'y');
    assert(t[51] == 'z');
    assert(t[52] == '0');
    assert(t[53] == '1');
    assert(t[54] == '2');
    assert(t[55] == '3');
    assert(t[56] == '4');
    assert(t[57] == '5');
    assert(t[58] == '6');
    assert(t[59] == '7');
    assert(t[60] == '8');
    assert(t[61] == '9');
    assert(t[62] == '+');
    assert(t[63] == '/');
}

/// The three bytes that four Base64 digits stand for, as one number.
proof fn lemma_group_bits(b: Seq<u8>, g: int)
    requires
        0 <= g,
    ensures
        ({
            let bits = byte_at(b, g) * 65536 + byte_at(b, g + 1) * 256 + byte_at(b, g + 2);
            &&& 0 <= bits < 16777216
            &&& 0 <= bits / 262144 < 64
            &&& 0 <= bits / 4096 % 64 < 64
            &&& 0 <= bits / 64 % 64 < 64
            &&& 0 <= bits % 64 < 64
            &&& bits == (bits / 262144) * 262144 + (bits / 4096 % 64) * 4096 + (bits / 64 % 64) * 64
                + bits % 64
            &&& byte_at(b, g) == bits / 65536
            &&& byte_at(b, g + 1) == bits / 256 % 256
            &&& byte_at(b, g + 2) == bits % 256
            &&& g + 2 >= b.len() ==> bits % 64 == 0
            &&& g + 1 >= b.len() ==> bits / 64 % 64 == 0
        }),
{
    let x = byte_at(b, g);
    let y = byte_at(b, g + 1);
    let z = byte_at(b, g + 2);
    assert(0 <= x < 256 && 0 <= y < 256 && 0 <= z < 256);
    let bits = x * 65536 + y * 256 + z;
    let n = bits as u32;
    assert(n == bits);
    lemma_three_bytes(n, x as u32, y as u32, z as u32);
}

proof fn lemma_three_bytes(n: u32, x: u32, y: u32, z: u32)
    by (bit_vector)
    requires
        x < 256,
        y < 256,
        z < 256,
        n == x * 65536 + y * 256 + z,
    ensures
        n < 16777216,
        n / 262144 < 64,
        n / 4096 % 64 < 64,
        n / 64 % 64 < 64,
        n % 64 < 64,
        n == (n / 262144) * 262144 + (n / 4096 % 64) * 4096 + (n / 64 % 64) * 64 + n % 64,
        x == n / 65536,
        y == n / 256 % 256,
        z == n % 256,
        z == 0 ==> n % 64 == 0,
        y == 0 && z == 0 ==> n / 64 % 64 == 0,
{
}

/// The character at a place of the encoding, if it is no padding.
proof fn lemma_char_value(b: Seq<u8>, q: int, j: int)
    requires
        0 <= q,
        0 <= j < 4,
        3 * q < b.len(),
    ensures
        ({
            let g = 3 * q;
            let bits = byte_at(b, g) * 65536 + byte_at(b, g + 1) * 256 + byte_at(b, g + 2);
            let c = base64_char(b, 4 * q + j);
            &&& g + j > b.len() <==> c == '='
            &&& g + j <= b.len() && j == 0 ==> digit_value(c) == bits / 262144
            &&& g + j <= b.len() && j == 1 ==> digit_value(c) == bits / 4096 % 64
            &&& g + j <= b.len() && j == 2 ==> digit_value(c) == bits / 64 % 64
            &&& g + j <= b.len() && j == 3 ==> digit_value(c) == bits % 64
        }),
{
    let g = 3 * q;
    let bits = byte_at(b, g) * 65536 + byte_at(b, g + 1) * 256 + byte_at(b, g + 2);
    lemma_group_bits(b, g);
    lemma_digit_value(bits / 262144);
    lemma_digit_value(bits / 4096 % 64);
    lemma_digit_value(bits / 64 % 64);
    lemma_digit_value(bits % 64);
    assert((4 * q + j) / 4 == q);
    assert((4 * q + j) % 4 == j);
}

/// The encoding says how many bytes there are.
proof fn lemma_base64_length(a: Seq<u8>, b: Seq<u8>)
    requires
        base64_text(a) == base64_text(b),
    ensures
        a.len() == b.len(),
{
    assert(base64_text(a).len() == base64_len(a.len() as int));
    assert(base64_text(b).len() == base64_len(b.len() as int));
    let groups = (a.len() + 2) / 3;
    assert(groups == (b.len() + 2) / 3);
    if groups > 0 {
        let q = groups - 1;
        assert(3 * q < a.len() && 3 * q < b.len());
        lemma_char_value(a, q, 2);
        lemma_char_value(a, q, 3);
        lemma_char_value(b, q, 2);
        lemma_char_value(b, q, 3);
        assert(base64_text(a)[4 * q + 2] == base64_char(a, 4 * q + 2));
        assert(base64_text(a)[4 * q + 3] == base64_char(a, 4 * q + 3));
        assert(base64_text(b)[4 * q + 2] == base64_char(b, 4 * q + 2));
        assert(base64_text(b)[4 * q + 3] == base64_char(b, 4 * q + 3));
    }
}

/// The number that a group of three bytes is.
pub open spec fn group_bits(b: Seq<u8>, g: int) -> int {
    byte_at(b, g) * 65536 + byte_at(b, g + 1) * 256 + byte_at(b, g + 2)
}

proof fn lemma_same_group(a: Seq<u8>, b: Seq<u8>, q: int)
    requires
        base64_text(a) == base64_text(b),
        a.len() == b.len(),
        0 <= q,
        3 * q < a.len(),
    ensures
        group_bits(a, 3 * q) == group_bits(b, 3 * q),
{
    let m = base64_len(a.len() as int);
    assert(4 * q + 3 < m);
    lemma_same_char(a, b, 4 * q);
    lemma_same_char(a, b, 4 * q + 1);
    lemma_same_char(a, b, 4 * q + 2);
    lemma_same_char(a, b, 4 * q + 3);
    lemma_char_value(a, q, 0);
    lemma_char_value(a, q, 1);
    lemma_char_value(a, q, 2);
    lemma_char_value(a, q, 3);
    lemma_char_value(b, q, 0);
    lemma_char_value(b, q, 1);
    lemma_char_value(b, q, 2);
    lemma_char_value(b, q, 3);
    lemma_group_bits(a, 3 * q);
    lemma_group_bits(b, 3 * q);
    let x = group_bits(a, 3 * q);
    let y = group_bits(b, 3 * q);
    assert(x / 262144 == y / 262144);
    assert(x / 4096 % 64 == y / 4096 % 64);
    assert(x / 64 % 64 == y / 64 % 64);
    assert(x % 64 == y % 64);
}

proof fn lemma_same_char(a: Seq<u8>, b: Seq<u8>, i: int)
    requires
        base64_text(a) == base64_text(b),
        0 <= i < base64_len(a.len() as int),
        a.len() == b.len(),
    ensures
        base64_char(a, i) == base64_char(b, i),
{
    assert(base64_text(a)[i] == base64_char(a, i));
    assert(base64_text(b)[i] == base64_char(b, i));
}

/// Different byte strings have different encodings.
pub proof fn law_base64_is_lossless(a: Seq<u8>, b: Seq<u8>)
    requires
        base64_text(a) == base64_text(b),
    ensures
        a == b,
{
    lemma_base64_length(a, b);
    assert forall|i: int| 0 <= i < a.len() implies a[i] == b[i] by {
        let q = i / 3;
        lemma_same_group(a, b, q);
        lemma_group_bits(a, 3 * q);
        lemma_group_bits(b, 3 * q);
        assert(byte_at(a, i) == a[i] as int && byte_at(b, i) == b[i] as int);
        assert(i == 3 * q || i == 3 * q + 1 || i == 3 * q + 2);
    }
    assert(a =~= b);
}

/// The canonical DynamoDB JSON of a value determines the value: two values with
/// the same view are the same.
pub proof fn law_the_typed_view_determines_the_value(a: AttrModel, b: AttrModel)
    requires
        is_proper(a),
        is_proper(b),
        ddb(a) == ddb(b),
    ensures
        is_same(a, b),
    decreases a,
{
    lemma_tags();
    law_the_typed_view_says_what_the_value_is(a);
    law_the_typed_view_says_what_the_value_is(b);
    let oa = ddb(a)->Object_0;
    let ob = ddb(b)->Object_0;
    assert(oa == ob);
    assert forall|t: Seq<char>, v: Json| holds_one(ddb(a), t, v) implies #[trigger] oa.contains_pair(
        t,
        v,
    ) by {}
    match (a, b) {
        (AttrModel::S(x), AttrModel::S(y)) => {
            assert(oa["S"@] == Json::Text(x) && ob["S"@] == Json::Text(y));
        },
        (AttrModel::N(x), AttrModel::N(y)) => {
            assert(oa["N"@] == Json::Text(x) && ob["N"@] == Json::Text(y));
        },
        (AttrModel::Bool(x), AttrModel::Bool(y)) => {
            assert(oa["BOOL"@] == Json::Bool(x) && ob["BOOL"@] == Json::Bool(y));
        },
        (AttrModel::Null, AttrModel::Null) => {},
        (AttrModel::B(x), AttrModel::B(y)) => {
            assert(oa["B"@] == Json::Text(base64_text(x)) && ob["B"@] == Json::Text(
                base64_text(y),
            ));
            law_base64_is_lossless(x, y);
        },
        (AttrModel::M(p), AttrModel::M(q)) => {
            assert(oa["M"@] == Json::Object(ddb_members(p)) && ob["M"@] == Json::Object(
                ddb_members(q),
            ));
            lemma_shown_members(p, RecordFormat::DdbJson);
            lemma_shown_members(q, RecordFormat::DdbJson);
            let o = shown_members(p, RecordFormat::DdbJson);
            assert(o == shown_members(q, RecordFormat::DdbJson));
            assert forall|i: int| 0 <= i < p.len() implies exists|j: int|
                0 <= j < q.len() && (#[trigger] q[j]).0 == (#[trigger] p[i]).0 && is_same(
                    p[i].1,
                    q[j].1,
                ) by {
                assert(o.contains_pair(p[i].0, shown(p[i].1, RecordFormat::DdbJson)));
                assert(o.contains_key(p[i].0));
                let j = choose|j: int| 0 <= j < q.len() && (#[trigger] q[j]).0 == p[i].0;
                assert(o.contains_pair(q[j].0, shown(q[j].1, RecordFormat::DdbJson)));
                assert(is_proper(p[i].1) && is_proper(q[j].1));
                law_the_typed_view_determines_the_value(p[i].1, q[j].1);
            }
            assert forall|j: int| 0 <= j < q.len() implies exists|i: int|
                0 <= i < p.len() && (#[trigger] p[i]).0 == (#[trigger] q[j]).0 by {
                assert(o.contains_pair(q[j].0, shown(q[j].1, RecordFormat::DdbJson)));
                assert(o.contains_key(q[j].0));
            }
        },
        (AttrModel::L(l), AttrModel::L(k)) => {
            assert(oa["L"@] == Json::Array(ddb_items(l)) && ob["L"@] == Json::Array(ddb_items(k)));
            lemma_shown_items(l, RecordFormat::DdbJson);
            lemma_shown_items(k, RecordFormat::DdbJson);
            let s = shown_items(l, RecordFormat::DdbJson);
            assert(s == shown_items(k, RecordFormat::DdbJson));
            assert forall|i: int| 0 <= i < l.len() implies is_same(#[trigger] l[i], k[i]) by {
                assert(s[i] == shown(l[i], RecordFormat::DdbJson));
                assert(s[i] == shown(k[i], RecordFormat::DdbJson));
                assert(is_proper(l[i]) && is_proper(k[i]));
                law_the_typed_view_determines_the_value(l[i], k[i]);
            }
        },
        (AttrModel::Ss(x), AttrModel::Ss(y)) => {
            assert(oa["SS"@] == text_array(x) && ob["SS"@] == text_array(y));
            lemma_text_array(x, y);
        },
        (AttrModel::Ns(x), AttrModel::Ns(y)) => {
            assert(oa["NS"@] == text_array(x) && ob["NS"@] == text_array(y));
            lemma_text_array(x, y);
        },
        (AttrModel::Bs(x), AttrModel::Bs(y)) => {
            assert(oa["BS"@] == blob_array(x) && ob["BS"@] == blob_array(y));
            let u = blob_array(x)->Array_0;
            let v = blob_array(y)->Array_0;
            assert(u.len() == x.len() && v.len() == y.len());
            assert forall|i: int| 0 <= i < x.len() implies x[i] == y[i] by {
                assert(u[i] == Json::Text(base64_text(x[i])));
                assert(v[i] == Json::Text(base64_text(y[i])));
                law_base64_is_lossless(x[i], y[i]);
            }
            assert(x =~= y);
        },
        _ => {
            assert(oa.contains_key(tag_of(a)) && ob.contains_key(tag_of(b)));
            assert(oa.dom() =~= set![tag_of(a)]);
            assert(ob.dom() =~= set![tag_of(b)]);
            assert(tag_of(a) != tag_of(b));
            assert(false);
        },
    }
}

/// The name of the type of a value.
pub open spec fn tag_of(m: AttrModel) -> Seq<char> {
    match m {
        AttrModel::S(_) => "S"@,
        AttrModel::N(_) => "N"@,
        AttrModel::Bool(_) => "BOOL"@,
        AttrModel::Null => "NULL"@,
        AttrModel::B(_) => "B"@,
        AttrModel::M(_) => "M"@,
        AttrModel::L(_) => "L"@,
        AttrModel::Ss(_) => "SS"@,
        AttrModel::Ns(_) => "NS"@,
        AttrModel::Bs(_) => "BS"@,
    }
}

proof fn lemma_text_array(x: Seq<Seq<char>>, y: Seq<Seq<char>>)
    requires
        text_array(x) == text_array(y),
    ensures
        x == y,
{
    let u = text_array(x)->Array_0;
    let v = text_array(y)->Array_0;
    assert(u.len() == x.len() && v.len() == y.len());
    assert forall|i: int| 0 <= i < x.len() implies x[i] == y[i] by {
        assert(u[i] == Json::Text(x[i]));
        assert(v[i] == Json::Text(y[i]));
    }
    assert(x =~= y);
}

/// An item is shown with every one of its attributes, in the format that was
/// asked for, and with nothing else.
pub proof fn law_an_item_shows_each_attribute_in_its_format(
    s: Seq<(Seq<char>, AttrModel)>,
    i: int,
    k: Seq<char>,
)
    requires
        is_proper(AttrModel::M(s)),
    ensures
        0 <= i < s.len() ==> {
            &&& shown_members(s, RecordFormat::Native).contains_key(s[i].0)
            &&& says_plainly(shown_members(s, RecordFormat::Native)[s[i].0], s[i].1)
            &&& shown_members(s, RecordFormat::DdbJson).contains_key(s[i].0)
            &&& says_with_types(shown_members(s, RecordFormat::DdbJson)[s[i].0], s[i].1)
        },
        shown_members(s, RecordFormat::Native).contains_key(k) || shown_members(
            s,
            RecordFormat::DdbJson,
        ).contains_key(k) ==> exists|j: int| 0 <= j < s.len() && (#[trigger] s[j]).0 == k,
{
    lemma_proper_members(AttrModel::M(s));
    lemma_shown_members(s, RecordFormat::Native);
    lemma_shown_members(s, RecordFormat::DdbJson);
    if 0 <= i < s.len() {
        assert(is_proper(s[i].1));
        assert(shown_members(s, RecordFormat::Native).contains_pair(
            s[i].0,
            shown(s[i].1, RecordFormat::Native),
        ));
        assert(shown_members(s, RecordFormat::DdbJson).contains_pair(
            s[i].0,
            shown(s[i].1, RecordFormat::DdbJson),
        ));
        law_the_plain_view_says_what_the_value_is(s[i].1);
        law_the_typed_view_says_what_the_value_is(s[i].1);
    }
}

proof fn lemma_proper_members(m: AttrModel)
    requires
        is_proper(m),
        m is M,
    ensures
        forall|i: int, j: int|
            0 <= i < j < m->M_0.len() ==> (#[trigger] m->M_0[i]).0 != (#[trigger] m->M_0[j]).0,
        forall|i: int| 0 <= i < m->M_0.len() ==> is_proper((#[trigger] m->M_0[i]).1),
{
}

/// Only the size of byte strings stands in the way of showing a value: one that
/// has four Base64 characters for every three bytes fits if those can be held.
pub proof fn law_only_huge_bytes_do_not_fit(m: AttrModel)
    ensures
        match m {
            AttrModel::B(b) => fits(m) <==> 4 * ((b.len() + 2) / 3) <= isize::MAX,
            AttrModel::Bs(s) => fits(m) <==> forall|i: int|
                0 <= i < s.len() ==> 4 * (((#[trigger] s[i]).len() + 2) / 3) <= isize::MAX,
            AttrModel::L(l) => fits(m) <==> forall|i: int| 0 <= i < l.len() ==> fits(#[trigger] l[i]),
            AttrModel::M(p) => fits(m) <==> forall|i: int|
                0 <= i < p.len() ==> fits((#[trigger] p[i]).1),
            _ => fits(m),
        },
{
    match m {
        AttrModel::L(l) => {
            lemma_list_fits(l);
        },
        AttrModel::M(p) => {
            lemma_members_fit(p);
        },
        AttrModel::Bs(s) => {
            if fits(m) {
                assert forall|i: int| 0 <= i < s.len() implies 4 * (((#[trigger] s[i]).len() + 2)
                    / 3) <= isize::MAX by {
                    assert(is_encodable(s[i]));
                }
            }
        },
        _ => {},
    }
}

proof fn lemma_list_fits(l: Seq<AttrModel>)
    ensures
        all_fit(l) <==> forall|i: int| 0 <= i < l.len() ==> fits(#[trigger] l[i]),
    decreases l.len(),
{
    if l.len() > 0 {
        lemma_list_fits(l.drop_last());
        if all_fit(l) {
            assert forall|i: int| 0 <= i < l.len() implies fits(#[trigger] l[i]) by {
                if i < l.len() - 1 {
                    assert(l.drop_last()[i] == l[i]);
                }
            }
        }
        if forall|i: int| 0 <= i < l.len() ==> fits(#[trigger] l[i]) {
            assert forall|i: int| 0 <= i < l.drop_last().len() implies fits(
                #[trigger] l.drop_last()[i],
            ) by {
                assert(l.drop_last()[i] == l[i]);
            }
            assert(fits(l[l.len() - 1]));
        }
    }
}

proof fn lemma_members_fit(p: Seq<(Seq<char>, AttrModel)>)
    ensures
        pairs_fit(p) <==> forall|i: int| 0 <= i < p.len() ==> fits((#[trigger] p[i]).1),
    decreases p.len(),
{
    if p.len() > 0 {
        lemma_members_fit(p.drop_last());
        if pairs_fit(p) {
            assert forall|i: int| 0 <= i < p.len() implies fits((#[trigger] p[i]).1) by {
                if i < p.len() - 1 {
                    assert(p.drop_last()[i] == p[i]);
                }
            }
        }
        if forall|i: int| 0 <= i < p.len() ==> fits((#[trigger] p[i]).1) {
            assert forall|i: int| 0 <= i < p.drop_last().len() implies fits(
                (#[trigger] p.drop_last()[i]).1,
            ) by {
                assert(p.drop_last()[i] == p[i]);
            }
            assert(fits(p[p.len() - 1].1));
        }
    }
}

} // verus!
