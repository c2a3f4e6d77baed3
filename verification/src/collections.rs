//! Sets and maps keyed by text, kept in insertion order, and sorting by text.

use vstd::prelude::*;

use crate::text;

verus! {

/// The texts of a sequence of strings.
pub open spec fn texts(s: Seq<String>) -> Seq<Seq<char>> {
    s.map_values(|x: String| x@)
}

/// The text of an optional string.
pub open spec fn optional_text(s: Option<String>) -> Option<Seq<char>> {
    match s {
        Some(x) => Some(x@),
        None => None,
    }
}

/// Taking one more element either appends it to what `keep` retains or not.
pub proof fn lemma_filter_step<A>(s: Seq<A>, i: int, keep: spec_fn(A) -> bool)
    requires
        0 <= i < s.len(),
    ensures
        s.take(i + 1).filter(keep) == (if keep(s[i]) {
            s.take(i).filter(keep).push(s[i])
        } else {
            s.take(i).filter(keep)
        }),
{
    assert(s.take(i + 1).drop_last() =~= s.take(i));
    reveal(Seq::filter);
}

/// Taking one more element appends its image.
pub proof fn lemma_map_step<A, B>(s: Seq<A>, i: int, f: spec_fn(A) -> B)
    requires
        0 <= i < s.len(),
    ensures
        s.take(i + 1).map_values(f) == s.take(i).map_values(f).push(f(s[i])),
{
    assert(s.take(i + 1).map_values(f) =~= s.take(i).map_values(f).push(f(s[i])));
}

/// A copy of a vector of strings.
pub fn clone_strings(v: &Vec<String>) -> (r: Vec<String>)
    ensures
        r@ == v@,
{
    let mut r: Vec<String> = Vec::new();
    let mut i: usize = 0;
    while i < v.len()
        invariant
            i <= v.len(),
            r@ == v@.take(i as int),
        decreases v.len() - i,
    {
        r.push(v[i].clone());
        i = i + 1;
        assert(v@.take(i as int) =~= v@.take(i - 1).push(v@[i - 1]));
    }
    assert(v@.take(i as int) =~= v@);
    r
}

/// A copy of an optional string.
pub fn clone_optional(s: &Option<String>) -> (r: Option<String>)
    ensures
        r == *s,
{
    match s {
        Some(x) => Some(x.clone()),
        None => None,
    }
}

/// Is `x` among the strings of `v`?
pub fn list_contains(v: &Vec<String>, x: &str) -> (r: bool)
    ensures
        r == texts(v@).contains(x@),
{
    let mut i: usize = 0;
    while i < v.len()
        invariant
            i <= v.len(),
            forall|k: int| 0 <= k < i ==> texts(v@)[k] != x@,
        decreases v.len() - i,
    {
        if text::same(v[i].as_str(), x) {
            assert(texts(v@)[i as int] == x@);
            return true;
        }
        i = i + 1;
    }
    false
}

/// A set of texts, in the order in which they were first inserted.
pub struct StringSet {
    items: Vec<String>,
}

impl View for StringSet {
    type V = Set<Seq<char>>;

    open spec fn view(&self) -> Set<Seq<char>> {
        self.order().to_set()
    }
}

impl StringSet {
    #[verifier::type_invariant]
    spec fn inv(self) -> bool {
        texts(self.items@).no_duplicates()
    }

    /// The members, in insertion order.
    pub closed spec fn order(self) -> Seq<Seq<char>> {
        texts(self.items@)
    }

    /// The empty set.
    pub fn new() -> (r: StringSet)
        ensures
            r@ == Set::<Seq<char>>::empty(),
            r.order() == Seq::<Seq<char>>::empty(),
    {
        let r = StringSet { items: Vec::new() };
        assert(r.order() =~= Seq::empty());
        assert(r@ =~= Set::empty());
        r
    }

    /// Is `x` a member?
    pub fn contains(&self, x: &str) -> (r: bool)
        ensures
            r == self@.contains(x@),
    {
        list_contains(&self.items, x)
    }

    /// Add `x`; tells whether it was not yet a member.
    pub fn insert(&mut self, x: String) -> (added: bool)
        ensures
            final(self)@ == old(self)@.insert(x@),
            added == !old(self)@.contains(x@),
            final(self).order() == (if added {
                old(self).order().push(x@)
            } else {
                old(self).order()
            }),
    {
        proof {
            use_type_invariant(&*self);
        }
        if self.contains(x.as_str()) {
            assert(self@ =~= old(self)@.insert(x@));
            return false;
        }
        let ghost before = texts(self.items@);
        let mut items: Vec<String> = Vec::new();
        std::mem::swap(&mut items, &mut self.items);
        items.push(x);
        assert(texts(items@) =~= before.push(x@));
        assert(before.push(x@).to_set() =~= before.to_set().insert(x@)) by {
            before.lemma_push_to_set_commute(x@);
        }
        self.items = items;
        true
    }

    /// The number of members.
    pub fn len(&self) -> (r: usize)
        ensures
            r == self@.len(),
            r == self.order().len(),
            self@.finite(),
    {
        proof {
            use_type_invariant(&*self);
            self.order().unique_seq_to_set();
        }
        self.items.len()
    }

    /// The members, in insertion order.
    pub fn items(&self) -> (r: &Vec<String>)
        ensures
            texts(r@) == self.order(),
            texts(r@).to_set() == self@,
            texts(r@).no_duplicates(),
    {
        proof {
            use_type_invariant(&*self);
        }
        &self.items
    }

    /// The set of the given texts.
    pub fn of(items: &Vec<String>) -> (r: StringSet)
        ensures
            r@ == texts(items@).to_set(),
    {
        let mut r = StringSet::new();
        let mut i: usize = 0;
        assert(texts(items@).take(0).to_set() =~= Set::empty());
        while i < items.len()
            invariant
                i <= items.len(),
                r@ == texts(items@).take(i as int).to_set(),
            decreases items.len() - i,
        {
            r.insert(items[i].clone());
            proof {
                let t = texts(items@);
                assert(t.take(i + 1) =~= t.take(i as int).push(t[i as int]));
                t.take(i as int).lemma_push_to_set_commute(t[i as int]);
            }
            i = i + 1;
        }
        assert(texts(items@).take(i as int) =~= texts(items@));
        r
    }
}

/// A map from text, in the order in which the keys were first inserted.
pub struct StringMap<V> {
    entries: Vec<(String, V)>,
}

/// The keys of a sequence of entries.
pub open spec fn entry_keys<V>(entries: Seq<(String, V)>) -> Seq<Seq<char>> {
    entries.map_values(|e: (String, V)| e.0@)
}

/// The map that a sequence of entries with distinct keys denotes.
pub open spec fn entry_map<V>(entries: Seq<(String, V)>) -> Map<Seq<char>, V> {
    Map::new(
        |k: Seq<char>| entry_keys(entries).contains(k),
        |k: Seq<char>| entries[entry_keys(entries).index_of(k)].1,
    )
}

proof fn lemma_entry_map_at<V>(entries: Seq<(String, V)>, i: int)
    requires
        entry_keys(entries).no_duplicates(),
        0 <= i < entries.len(),
    ensures
        entry_map(entries).contains_key(entries[i].0@),
        entry_map(entries)[entries[i].0@] == entries[i].1,
{
    let keys = entry_keys(entries);
    assert(keys[i] == entries[i].0@);
    assert(keys.contains(keys[i]));
    assert(keys[keys.index_of(keys[i])] == keys[i]);
}

impl<V> View for StringMap<V> {
    type V = Map<Seq<char>, V>;

    closed spec fn view(&self) -> Map<Seq<char>, V> {
        entry_map(self.entries@)
    }
}

impl<V> StringMap<V> {
    #[verifier::type_invariant]
    spec fn inv(self) -> bool {
        entry_keys(self.entries@).no_duplicates()
    }

    /// The keys, in insertion order.
    pub closed spec fn order(self) -> Seq<Seq<char>> {
        entry_keys(self.entries@)
    }

    /// The empty map.
    pub fn new() -> (r: StringMap<V>)
        ensures
            r@ == Map::<Seq<char>, V>::empty(),
            r.order() == Seq::<Seq<char>>::empty(),
    {
        let r = StringMap { entries: Vec::new() };
        assert(r.order() =~= Seq::empty());
        assert(r@ =~= Map::empty());
        r
    }

    /// The position of `key`, if it is there.
    fn position(&self, key: &str) -> (r: Option<usize>)
        ensures
            match r {
                Some(i) => i < self.entries.len() && self.entries@[i as int].0@ == key@,
                None => !entry_keys(self.entries@).contains(key@),
            },
    {
        let mut i: usize = 0;
        while i < self.entries.len()
            invariant
                i <= self.entries.len(),
                forall|k: int| 0 <= k < i ==> entry_keys(self.entries@)[k] != key@,
            decreases self.entries.len() - i,
        {
            if text::same(self.entries[i].0.as_str(), key) {
                return Some(i);
            }
            i = i + 1;
        }
        None
    }

    /// Is there an entry for `key`?
    pub fn contains_key(&self, key: &str) -> (r: bool)
        ensures
            r == self@.contains_key(key@),
    {
        match self.position(key) {
            Some(i) => {
                assert(entry_keys(self.entries@)[i as int] == key@);
                true
            },
            None => false,
        }
    }

    /// The value of `key`.
    pub fn get(&self, key: &str) -> (r: Option<&V>)
        ensures
            match r {
                Some(v) => self@.contains_key(key@) && self@[key@] == *v,
                None => !self@.contains_key(key@),
            },
    {
        proof {
            use_type_invariant(&*self);
        }
        match self.position(key) {
            Some(i) => {
                proof {
                    lemma_entry_map_at(self.entries@, i as int);
                }
                Some(&self.entries[i].1)
            },
            None => None,
        }
    }

    /// Set the value of `key`.
    pub fn insert(&mut self, key: String, value: V)
        ensures
            final(self)@ == old(self)@.insert(key@, value),
            final(self).order() == (if old(self)@.contains_key(key@) {
                old(self).order()
            } else {
                old(self).order().push(key@)
            }),
    {
        proof {
            use_type_invariant(&*self);
        }
        let found = self.position(key.as_str());
        let ghost before = self.entries@;
        let mut entries: Vec<(String, V)> = Vec::new();
        std::mem::swap(&mut entries, &mut self.entries);
        match found {
            Some(i) => {
                assert(entry_keys(before)[i as int] == key@);
                entries.set(i, (key, value));
                assert(entry_keys(entries@) =~= entry_keys(before));
            },
            None => {
                entries.push((key, value));
                assert(entry_keys(entries@) =~= entry_keys(before).push(key@));
                assert(entry_keys(entries@)[before.len() as int] == key@);
            },
        }
        self.entries = entries;
        proof {
            let after = self.entries@;
            let at = if found is Some { found->0 as int } else { before.len() as int };
            assert forall|k: Seq<char>| entry_map(after).contains_key(k)
                == entry_map(before).insert(key@, value).contains_key(k) by {
                if entry_keys(before).contains(k) {
                    let j = entry_keys(before).index_of(k);
                    assert(entry_keys(after)[j] == k);
                }
                if entry_keys(after).contains(k) && k != key@ {
                    let j = entry_keys(after).index_of(k);
                    assert(entry_keys(before)[j] == k);
                }
                if k == key@ {
                    assert(entry_keys(after)[at] == k);
                }
            }
            assert forall|k: Seq<char>| #[trigger]
                entry_map(after).contains_key(k) implies entry_map(after)[k] == entry_map(
                before,
            ).insert(key@, value)[k] by {
                let j = entry_keys(after).index_of(k);
                lemma_entry_map_at(after, j);
                lemma_entry_map_at(after, at);
                if k != key@ {
                    lemma_entry_map_at(before, j);
                }
            }
            assert(entry_map(after) =~= entry_map(before).insert(key@, value));
        }
    }

    /// Drop the entry of `key`, if there is one.
    pub fn remove(&mut self, key: &str)
        ensures
            final(self)@ == old(self)@.remove(key@),
    {
        proof {
            use_type_invariant(&*self);
        }
        let found = self.position(key);
        let ghost before = self.entries@;
        match found {
            Some(i) => {
                let mut entries: Vec<(String, V)> = Vec::new();
                std::mem::swap(&mut entries, &mut self.entries);
                let _ = entries.remove(i);
                proof {
                    let after = entries@;
                    assert(after =~= before.remove(i as int));
                    assert(entry_keys(after) =~= entry_keys(before).remove(i as int));
                    assert(entry_keys(before)[i as int] == key@);
                    assert forall|k: Seq<char>| entry_map(after).contains_key(k)
                        == entry_map(before).remove(key@).contains_key(k) by {
                        if entry_keys(before).contains(k) && k != key@ {
                            let j = entry_keys(before).index_of(k);
                            if j < i {
                                assert(entry_keys(after)[j] == k);
                            } else {
                                assert(entry_keys(after)[j - 1] == k);
                            }
                        }
                        if entry_keys(after).contains(k) {
                            let j = entry_keys(after).index_of(k);
                            if j < i {
                                assert(entry_keys(before)[j] == k);
                            } else {
                                assert(entry_keys(before)[j + 1] == k);
                            }
                        }
                    }
                    assert forall|k: Seq<char>| #[trigger]
                        entry_map(after).contains_key(k) implies entry_map(after)[k]
                        == entry_map(before)[k] by {
                        let j = entry_keys(after).index_of(k);
                        lemma_entry_map_at(after, j);
                        if j < i {
                            lemma_entry_map_at(before, j);
                        } else {
                            lemma_entry_map_at(before, j + 1);
                        }
                    }
                    assert(entry_map(after) =~= entry_map(before).remove(key@));
                }
                self.entries = entries;
            },
            None => {
                assert(entry_map(before) =~= entry_map(before).remove(key@));
            },
        }
    }

    /// Drop every entry whose key is not in `keep`.
    pub fn retain_in(&mut self, keep: &StringSet)
        ensures
            final(self)@ == old(self)@.restrict(keep@),
    {
        let mut doomed: Vec<String> = Vec::new();
        let mut i: usize = 0;
        let ghost order = self.order();
        proof {
            self.lemma_order();
        }
        while i < self.len()
            invariant
                i <= order.len(),
                order == self.order(),
                self@ == old(self)@,
                forall|k: int| 0 <= k < i && !keep@.contains(order[k]) ==> texts(doomed@).contains(
                    #[trigger] order[k],
                ),
                forall|j: int| 0 <= j < doomed.len() ==> !keep@.contains(#[trigger] doomed@[j]@),
            decreases order.len() - i,
        {
            let key = self.key_at(i);
            if !keep.contains(key.as_str()) {
                let ghost before = doomed@;
                doomed.push(key.clone());
                proof {
                    assert(texts(doomed@) =~= texts(before).push(order[i as int]));
                    assert(texts(doomed@)[before.len() as int] == order[i as int]);
                    assert forall|k: int|
                        0 <= k < i && !keep@.contains(order[k]) implies texts(doomed@).contains(
                        #[trigger] order[k],
                    ) by {
                        let j = texts(before).index_of(order[k]);
                        assert(texts(doomed@)[j] == order[k]);
                    }
                }
            }
            i = i + 1;
        }
        let mut n: usize = 0;
        while n < doomed.len()
            invariant
                n <= doomed.len(),
                forall|j: int| 0 <= j < doomed.len() ==> !keep@.contains(#[trigger] doomed@[j]@),
                forall|k: Seq<char>| #[trigger]
                    self@.contains_key(k) <==> old(self)@.contains_key(k) && !texts(doomed@).take(
                        n as int,
                    ).contains(k),
                forall|k: Seq<char>| #[trigger]
                    self@.contains_key(k) ==> self@[k] == old(self)@[k],
            decreases doomed.len() - n,
        {
            self.remove(doomed[n].as_str());
            proof {
                let d = texts(doomed@);
                assert(d.take(n + 1) =~= d.take(n as int).push(d[n as int]));
                assert forall|k: Seq<char>| #[trigger]
                    self@.contains_key(k) <==> old(self)@.contains_key(k) && !d.take(
                        n + 1,
                    ).contains(k) by {
                    if d.take(n as int).contains(k) {
                        let j = d.take(n as int).index_of(k);
                        assert(d.take(n + 1)[j] == k);
                    }
                    if d.take(n + 1).contains(k) {
                        let j = d.take(n + 1).index_of(k);
                        if j < n {
                            assert(d.take(n as int)[j] == k);
                        }
                    }
                    assert(d.take(n + 1)[n as int] == d[n as int]);
                }
            }
            n = n + 1;
        }
        proof {
            assert(texts(doomed@).take(n as int) =~= texts(doomed@));
            assert forall|k: Seq<char>| self@.contains_key(k) == old(self)@.restrict(
                keep@,
            ).contains_key(k) by {
                if old(self)@.contains_key(k) && !keep@.contains(k) {
                    assert(order.to_set().contains(k));
                    let j = order.index_of(k);
                    assert(order[j] == k);
                }
                if texts(doomed@).contains(k) {
                    let j = texts(doomed@).index_of(k);
                    assert(doomed@[j]@ == k);
                }
            }
            assert(self@ =~= old(self)@.restrict(keep@));
        }
    }

    /// The number of entries.
    pub fn len(&self) -> (r: usize)
        ensures
            r == self.order().len(),
    {
        self.entries.len()
    }

    /// The key at position `i` of the insertion order.
    pub fn key_at(&self, i: usize) -> (r: &String)
        requires
            i < self.order().len(),
        ensures
            r@ == self.order()[i as int],
            self@.contains_key(r@),
    {
        proof {
            use_type_invariant(&*self);
            lemma_entry_map_at(self.entries@, i as int);
        }
        &self.entries[i].0
    }

    /// The keys in insertion order are those of the map.
    pub proof fn lemma_order(&self)
        ensures
            self.order().to_set() == self@.dom(),
    {
        assert(self.order().to_set() =~= self@.dom());
    }
}

/// `s` with `x` put behind every element that does not come after it.
pub open spec fn insert_sorted(s: Seq<Seq<char>>, x: Seq<char>) -> Seq<Seq<char>>
    decreases s.len(),
{
    if s.len() > 0 && text::lex_less(x, s.last()) {
        insert_sorted(s.drop_last(), x).push(s.last())
    } else {
        s.push(x)
    }
}

/// The texts of `s` in ascending order.
pub open spec fn sorted(s: Seq<Seq<char>>) -> Seq<Seq<char>>
    decreases s.len(),
{
    if s.len() == 0 {
        Seq::empty()
    } else {
        insert_sorted(sorted(s.drop_last()), s.last())
    }
}

/// No element comes after a later one.
pub open spec fn is_sorted(s: Seq<Seq<char>>) -> bool {
    forall|i: int, j: int| 0 <= i < j < s.len() ==> !text::lex_less(#[trigger] s[j], #[trigger] s[i])
}

proof fn lemma_insert_sorted(s: Seq<Seq<char>>, x: Seq<char>)
    requires
        is_sorted(s),
    ensures
        is_sorted(insert_sorted(s, x)),
        insert_sorted(s, x).len() == s.len() + 1,
        insert_sorted(s, x).to_multiset() == s.to_multiset().insert(x),
    decreases s.len(),
{
    broadcast use vstd::seq_lib::group_to_multiset_ensures;

    if s.len() > 0 && text::lex_less(x, s.last()) {
        let rest = s.drop_last();
        let last = s.last();
        lemma_insert_sorted(rest, x);
        let t = insert_sorted(rest, x);
        assert(s =~= rest.push(last));
        assert forall|i: int, j: int| 0 <= i < j < t.push(last).len() implies !text::lex_less(
            #[trigger] t.push(last)[j],
            #[trigger] t.push(last)[i],
        ) by {
            if j == t.len() {
                // every element of `t` is `x` or an element of `rest`
                assert(t.to_multiset().contains(t[i]));
                if t[i] == x {
                    text::lemma_lex_less_total(x, last);
                } else {
                    assert(rest.to_multiset().contains(t[i]));
                    assert(rest.contains(t[i]));
                    let k = rest.index_of(t[i]);
                    assert(s[k] == t[i] && s[s.len() - 1] == last);
                }
            }
        }
        assert(s.to_multiset() =~= rest.to_multiset().insert(last));
        assert(t.push(last).to_multiset() =~= s.to_multiset().insert(x));
    } else {
        let t = s.push(x);
        assert forall|i: int, j: int| 0 <= i < j < t.len() implies !text::lex_less(
            #[trigger] t[j],
            #[trigger] t[i],
        ) by {
            if j == s.len() {
                if text::lex_less(x, s[i]) {
                    if i < s.len() - 1 {
                        assert(!text::lex_less(s[s.len() - 1], s[i]));
                        text::lemma_lex_less_total(s[i], s.last());
                        if text::lex_less(s[i], s.last()) {
                            text::lemma_lex_less_transitive(x, s[i], s.last());
                        }
                    }
                }
            }
        }
    }
}

/// Sorting gives the same texts, as often as before, in ascending order.
pub proof fn lemma_sorted(s: Seq<Seq<char>>)
    ensures
        is_sorted(sorted(s)),
        sorted(s).len() == s.len(),
        sorted(s).to_multiset() == s.to_multiset(),
    decreases s.len(),
{
    broadcast use vstd::seq_lib::group_to_multiset_ensures;

    if s.len() == 0 {
        assert(s.to_multiset() =~= sorted(s).to_multiset());
    } else {
        lemma_sorted(s.drop_last());
        lemma_insert_sorted(sorted(s.drop_last()), s.last());
        assert(s =~= s.drop_last().push(s.last()));
        assert(s.to_multiset() =~= s.drop_last().to_multiset().insert(s.last()));
    }
}

proof fn lemma_filter_counts<A>(s: Seq<A>, p: spec_fn(A) -> bool, x: A)
    ensures
        s.filter(p).to_multiset().count(x) == (if p(x) {
            s.to_multiset().count(x)
        } else {
            0
        }),
    decreases s.len(),
{
    broadcast use vstd::seq_lib::group_to_multiset_ensures;

    reveal(Seq::filter);
    if s.len() > 0 {
        lemma_filter_counts(s.drop_last(), p, x);
        assert(s =~= s.drop_last().push(s.last()));
    }
}

/// Filtering a permutation gives a permutation.
pub proof fn lemma_permuted_filter<A>(s: Seq<A>, t: Seq<A>, p: spec_fn(A) -> bool)
    requires
        s.to_multiset() == t.to_multiset(),
    ensures
        s.filter(p).to_multiset() == t.filter(p).to_multiset(),
        s.filter(p).len() == t.filter(p).len(),
{
    broadcast use vstd::seq_lib::group_to_multiset_ensures;

    assert forall|x: A| #[trigger]
        s.filter(p).to_multiset().count(x) == t.filter(p).to_multiset().count(x) by {
        lemma_filter_counts(s, p, x);
        lemma_filter_counts(t, p, x);
    }
    assert(s.filter(p).to_multiset() =~= t.filter(p).to_multiset());
    assert(s.filter(p).len() == s.filter(p).to_multiset().len());
    assert(t.filter(p).len() == t.filter(p).to_multiset().len());
}

/// Mapping a permutation gives a permutation.
pub proof fn lemma_permuted_map<A, B>(s: Seq<A>, t: Seq<A>, f: spec_fn(A) -> B)
    requires
        s.to_multiset() == t.to_multiset(),
    ensures
        s.map_values(f).to_multiset() == t.map_values(f).to_multiset(),
    decreases s.len(),
{
    broadcast use vstd::seq_lib::group_to_multiset_ensures;

    assert(s.len() == s.to_multiset().len());
    assert(t.len() == t.to_multiset().len());
    if s.len() == 0 {
        assert(s.map_values(f) =~= t.map_values(f));
    } else {
        let x = s.last();
        assert(s[s.len() - 1] == x);
        assert(s.to_multiset().contains(x));
        assert(t.contains(x));
        let i = t.index_of(x);
        let rest = t.remove(i);
        assert(s =~= s.drop_last().push(x));
        assert(s.drop_last().to_multiset() =~= rest.to_multiset());
        lemma_permuted_map(s.drop_last(), rest, f);
        assert(s.map_values(f) =~= s.drop_last().map_values(f).push(f(x)));
        assert(rest.map_values(f) =~= t.map_values(f).remove(i));
        assert(t.map_values(f)[i] == f(x));
        assert(t.map_values(f).to_multiset().contains(f(x)));
        assert(s.map_values(f).to_multiset() =~= t.map_values(f).to_multiset());
    }
}

proof fn lemma_sorted_is_unique(a: Seq<Seq<char>>, b: Seq<Seq<char>>)
    requires
        is_sorted(a),
        is_sorted(b),
        a.to_multiset() == b.to_multiset(),
    ensures
        a == b,
    decreases a.len(),
{
    broadcast use vstd::seq_lib::group_to_multiset_ensures;

    assert(a.len() == a.to_multiset().len());
    assert(b.len() == b.to_multiset().len());
    if a.len() == 0 {
        assert(a =~= b);
    } else {
        let (x, y) = (a.last(), b.last());
        assert(a[a.len() - 1] == x && b[b.len() - 1] == y);
        assert(b.to_multiset().contains(x)) by {
            assert(a.to_multiset().contains(x));
        }
        assert(a.to_multiset().contains(y)) by {
            assert(b.to_multiset().contains(y));
        }
        let (i, j) = (b.index_of(x), a.index_of(y));
        assert(b[i] == x && a[j] == y);
        text::lemma_lex_less_total(x, y);
        assert(x == y);
        assert(a =~= a.drop_last().push(x));
        assert(b =~= b.drop_last().push(x));
        assert(a.drop_last().to_multiset() =~= a.to_multiset().remove(x));
        assert(b.drop_last().to_multiset() =~= b.to_multiset().remove(x));
        assert forall|k: int, l: int| 0 <= k < l < a.drop_last().len() implies !text::lex_less(
            #[trigger] a.drop_last()[l],
            #[trigger] a.drop_last()[k],
        ) by {
            assert(a[l] == a.drop_last()[l] && a[k] == a.drop_last()[k]);
        }
        assert forall|k: int, l: int| 0 <= k < l < b.drop_last().len() implies !text::lex_less(
            #[trigger] b.drop_last()[l],
            #[trigger] b.drop_last()[k],
        ) by {
            assert(b[l] == b.drop_last()[l] && b[k] == b.drop_last()[k]);
        }
        lemma_sorted_is_unique(a.drop_last(), b.drop_last());
    }
}

/// Sorting a permutation gives the same list.
pub proof fn lemma_permuted_sorted(s: Seq<Seq<char>>, t: Seq<Seq<char>>)
    requires
        s.to_multiset() == t.to_multiset(),
    ensures
        sorted(s) == sorted(t),
{
    lemma_sorted(s);
    lemma_sorted(t);
    lemma_sorted_is_unique(sorted(s), sorted(t));
}

/// Put `x` at its place among sorted strings.
fn insert_in_order(v: &mut Vec<String>, x: String)
    ensures
        texts(final(v)@) == insert_sorted(texts(old(v)@), x@),
{
    let ghost s = texts(v@);
    let mut i: usize = v.len();
    assert(s.take(i as int) =~= s);
    assert(insert_sorted(s, x@) =~= insert_sorted(s.take(i as int), x@) + s.skip(i as int));
    while i > 0 && text::less(x.as_str(), v[i - 1].as_str())
        invariant
            i <= v.len(),
            s == texts(v@),
            insert_sorted(s, x@) == insert_sorted(s.take(i as int), x@) + s.skip(i as int),
        decreases i,
    {
        proof {
            let t = s.take(i as int);
            assert(t.drop_last() =~= s.take(i - 1));
            assert(t.last() == s[i - 1]);
            assert(insert_sorted(t, x@) == insert_sorted(s.take(i - 1), x@).push(s[i - 1]));
            assert(insert_sorted(s.take(i - 1), x@).push(s[i - 1]) + s.skip(i as int)
                =~= insert_sorted(s.take(i - 1), x@) + s.skip(i - 1));
        }
        i = i - 1;
    }
    let ghost xs = x@;
    v.insert(i, x);
    assert(texts(v@) =~= s.take(i as int).push(xs) + s.skip(i as int));
}

/// Copies of the given strings in ascending order.
pub fn sort_strings(v: &Vec<String>) -> (r: Vec<String>)
    ensures
        texts(r@) == sorted(texts(v@)),
{
    let mut r: Vec<String> = Vec::new();
    let mut i: usize = 0;
    assert(texts(r@) =~= sorted(texts(v@).take(0)));
    while i < v.len()
        invariant
            i <= v.len(),
            texts(r@) == sorted(texts(v@).take(i as int)),
        decreases v.len() - i,
    {
        insert_in_order(&mut r, v[i].clone());
        assert(texts(v@).take(i + 1).drop_last() =~= texts(v@).take(i as int));
        i = i + 1;
    }
    assert(texts(v@).take(i as int) =~= texts(v@));
    r
}

/// How many of the first `n` elements satisfy `p`.
pub open spec fn matching_before<A>(s: Seq<A>, p: spec_fn(A) -> bool, n: int) -> nat
    decreases n,
{
    if n <= 0 {
        0
    } else if p(s[n - 1]) {
        matching_before(s, p, n - 1) + 1
    } else {
        matching_before(s, p, n - 1)
    }
}

pub proof fn lemma_matching_grows<A>(s: Seq<A>, p: spec_fn(A) -> bool, i: int, n: int)
    requires
        i < n,
    ensures
        matching_before(s, p, i) <= matching_before(s, p, n),
        0 <= i && p(s[i]) ==> matching_before(s, p, i) < matching_before(s, p, n),
    decreases n - i,
{
    if i < n - 1 {
        lemma_matching_grows(s, p, i, n - 1);
    }
}

/// Every element that is kept stands, in what is kept, behind as many as are
/// kept before it.
pub proof fn lemma_filter_places<A, B>(
    s: Seq<A>,
    keep: spec_fn(A) -> bool,
    t: Seq<B>,
    p: spec_fn(B) -> bool,
    i: int,
)
    requires
        s.len() == t.len(),
        forall|k: int| #![trigger s[k]] #![trigger t[k]] 0 <= k < s.len() ==> keep(s[k]) == p(t[k]),
    ensures
        s.filter(keep).len() == matching_before(t, p, t.len() as int),
        0 <= i < s.len() && p(t[i]) ==> matching_before(t, p, i) < s.filter(keep).len() && s.filter(
            keep,
        )[matching_before(t, p, i) as int] == s[i],
{
    lemma_filter_places_upto(s, keep, t, p, s.len() as int, i);
    assert(s.take(s.len() as int) =~= s);
}

proof fn lemma_filter_places_upto<A, B>(
    s: Seq<A>,
    keep: spec_fn(A) -> bool,
    t: Seq<B>,
    p: spec_fn(B) -> bool,
    n: int,
    i: int,
)
    requires
        s.len() == t.len(),
        0 <= n <= s.len(),
        forall|k: int| #![trigger s[k]] #![trigger t[k]] 0 <= k < s.len() ==> keep(s[k]) == p(t[k]),
    ensures
        s.take(n).filter(keep).len() == matching_before(t, p, n),
        0 <= i < n && p(t[i]) ==> matching_before(t, p, i) < matching_before(t, p, n) && s.take(
            n,
        ).filter(keep)[matching_before(t, p, i) as int] == s[i],
    decreases n,
{
    if n == 0 {
        assert(s.take(0).filter(keep).len() == 0) by {
            reveal(Seq::filter);
        }
    } else {
        lemma_filter_places_upto(s, keep, t, p, n - 1, i);
        lemma_filter_step(s, n - 1, keep);
        assert(keep(s[n - 1]) == p(t[n - 1]));
    }
}

} // verus!
