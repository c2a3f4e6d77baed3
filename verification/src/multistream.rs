//! Lease keys that are unique across several streams.
//!
//! A shard id is namespaced under its stream as `<stream>:<shard>`. A stream
//! name may hold colons and a shard id never does, so a key is split at its last
//! colon.

use vstd::prelude::*;

use crate::text;

verus! {

/// The key of `shard` under `stream`.
pub open spec fn joined_key(stream: Seq<char>, shard: Seq<char>) -> Seq<char> {
    stream + seq![':'] + shard
}

/// The characters after the last colon: all of them, if there is none.
pub open spec fn shard_part(key: Seq<char>) -> Seq<char>
    decreases key.len(),
{
    if key.len() == 0 || key.last() == ':' {
        Seq::empty()
    } else {
        shard_part(key.drop_last()).push(key.last())
    }
}

/// The lease key of `shard` under `stream`.
pub fn multi_stream_lease_key(stream: &str, shard: &str) -> (key: String)
    ensures
        key@ == joined_key(stream@, shard@),
{
    proof {
        reveal_strlit(":");
        assert(":"@ =~= seq![':']);
    }
    let mut key = stream.to_owned();
    key.append(":");
    key.append(shard);
    key
}

/// The lease key of a shard when there is one stream: the bare shard id.
pub fn single_stream_lease_key(shard: &str) -> (key: String)
    ensures
        key@ == shard@,
{
    shard.to_owned()
}

/// Split a key at its last colon into stream and shard; `None` without a colon.
pub fn parse_lease_key(key: &str) -> (r: Option<(&str, &str)>)
    ensures
        match r {
            Some((stream, shard)) => key@ == joined_key(stream@, shard@) && !shard@.contains(':'),
            None => !key@.contains(':'),
        },
        r is Some ==> (r->0).1@ == shard_part(key@),
        r is None ==> key@ == shard_part(key@),
{
    let x = text::characters(key);
    let mut i: usize = x.len();
    assert(key@.take(i as int) =~= key@);
    assert(key@.skip(i as int) =~= Seq::empty());
    while i > 0
        invariant
            x@ == key@,
            i <= x.len(),
            shard_part(key@) == shard_part(key@.take(i as int)) + key@.skip(i as int),
            forall|k: int| i <= k < x.len() ==> x@[k] != ':',
        decreases i,
    {
        assert(key@.take(i as int).drop_last() =~= key@.take(i - 1));
        assert(key@.skip(i - 1) =~= seq![key@[i - 1]] + key@.skip(i as int));
        if x[i - 1] == ':' {
            let stream = key.substring_char(0, i - 1);
            let shard = key.substring_char(i, x.len());
            assert(key@ =~= joined_key(stream@, shard@));
            assert(shard@ =~= key@.skip(i as int));
            return Some((stream, shard));
        }
        assert(shard_part(key@) =~= shard_part(key@.take(i - 1)) + key@.skip(i - 1));
        i = i - 1;
    }
    assert(key@.take(0) =~= Seq::empty());
    assert(key@.skip(0) =~= key@);
    None
}

/// The shard id of a key, with or without a stream.
pub fn shard_of(key: &str) -> (shard: String)
    ensures
        shard@ == shard_part(key@),
{
    match parse_lease_key(key) {
        Some((_, shard)) => shard.to_owned(),
        None => key.to_owned(),
    }
}

proof fn lemma_shard_part(prefix: Seq<char>, shard: Seq<char>)
    requires
        !shard.contains(':'),
        prefix.len() == 0 || prefix.last() == ':',
    ensures
        shard_part(prefix + shard) == shard,
    decreases shard.len(),
{
    if shard.len() == 0 {
        assert(prefix + shard =~= prefix);
    } else {
        assert(shard[shard.len() - 1] != ':') by {
            assert(shard.contains(shard[shard.len() - 1]));
        }
        assert forall|i: int| 0 <= i < shard.drop_last().len() implies shard.drop_last()[i] != ':' by {
            assert(shard.contains(shard[i]));
        }
        lemma_shard_part(prefix, shard.drop_last());
        assert((prefix + shard).drop_last() =~= prefix + shard.drop_last());
        assert((prefix + shard).last() == shard.last());
        assert(shard =~= shard.drop_last().push(shard.last()));
    }
}

/// From a key, the shard is recovered exactly, and with it the stream, however
/// many colons the stream holds.
pub proof fn law_key_is_lossless(stream: Seq<char>, shard: Seq<char>)
    requires
        !shard.contains(':'),
    ensures
        shard_part(joined_key(stream, shard)) == shard,
        forall|s: Seq<char>, t: Seq<char>| #[trigger]
            joined_key(s, t) == joined_key(stream, shard) && !t.contains(':') ==> s == stream && t
                == shard,
{
    lemma_shard_part(stream + seq![':'], shard);
    assert forall|s: Seq<char>, t: Seq<char>| #[trigger]
        joined_key(s, t) == joined_key(stream, shard) && !t.contains(':') implies s == stream && t
        == shard by {
        lemma_shard_part(s + seq![':'], t);
        assert(joined_key(s, t).take(s.len() as int) =~= s);
        assert(joined_key(stream, shard).take(stream.len() as int) =~= stream);
    }
}

/// A bare shard id is its own key.
pub proof fn law_bare_key_is_the_shard(shard: Seq<char>)
    requires
        !shard.contains(':'),
    ensures
        shard_part(shard) == shard,
{
    lemma_shard_part(Seq::empty(), shard);
    assert(Seq::<char>::empty() + shard =~= shard);
}

/// Under different streams, the same shard id gives different keys.
pub proof fn law_streams_do_not_collide(a: Seq<char>, b: Seq<char>, shard: Seq<char>)
    requires
        a != b,
    ensures
        joined_key(a, shard) != joined_key(b, shard),
{
    if joined_key(a, shard) == joined_key(b, shard) {
        assert(joined_key(a, shard).len() == a.len() + 1 + shard.len());
        assert(joined_key(b, shard).len() == b.len() + 1 + shard.len());
        assert(joined_key(a, shard).take(a.len() as int) =~= a);
        assert(joined_key(b, shard).take(b.len() as int) =~= b);
    }
}

} // verus!
