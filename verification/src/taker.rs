//! Lease balancing: which leases a worker should take so that the fleet
//! converges on an even distribution.
//!
//! Leases that nobody holds, or whose holder stopped heartbeating, come first.
//! A worker that is still below its fair share then steals from the most-loaded
//! worker, but never so much that the victim drops below the fair share.

use vstd::prelude::*;

use crate::collections::{clone_optional, sort_strings, StringSet};
use crate::collections;
use crate::text;

verus! {

/// A worker's view of one lease row, for balancing decisions.
#[derive(Clone, Debug)]
pub struct LeaseSnapshot {
    pub lease_key: String,
    pub owner: Option<String>,
    /// Owned, but the owner stopped heartbeating.
    pub expired: bool,
    /// The shard is fully processed: it is never taken again.
    pub completed: bool,
}

/// What balancing reads of a lease row.
pub struct LeaseRow {
    pub key: Seq<char>,
    pub owner: Option<Seq<char>>,
    pub expired: bool,
    pub completed: bool,
}

impl View for LeaseSnapshot {
    type V = LeaseRow;

    open spec fn view(&self) -> LeaseRow {
        LeaseRow {
            key: self.lease_key@,
            owner: collections::optional_text(self.owner),
            expired: self.expired,
            completed: self.completed,
        }
    }
}

/// The rows of a table of snapshots.
pub open spec fn rows(leases: Seq<LeaseSnapshot>) -> Seq<LeaseRow> {
    leases.map_values(|l: LeaseSnapshot| l@)
}

/// The row still needs processing.
pub open spec fn is_active(r: LeaseRow) -> bool {
    !r.completed
}

/// The worker that holds the row and is alive, if there is one.
pub open spec fn live_owner(r: LeaseRow) -> Option<Seq<char>> {
    if r.completed || r.expired {
        None
    } else {
        r.owner
    }
}

/// The row can be claimed by `me` without stealing.
pub open spec fn is_available(r: LeaseRow, me: Seq<char>) -> bool {
    !r.completed && r.owner != Some(me) && (r.owner is None || r.expired)
}

/// The rows that still need processing.
pub open spec fn active_rows(t: Seq<LeaseRow>) -> Seq<LeaseRow> {
    t.filter(|r: LeaseRow| is_active(r))
}

/// The rows that the live worker `who` holds.
pub open spec fn held_rows(t: Seq<LeaseRow>, who: Seq<char>) -> Seq<LeaseRow> {
    t.filter(|r: LeaseRow| live_owner(r) == Some(who))
}

/// The rows that `me` can claim without stealing.
pub open spec fn available_rows(t: Seq<LeaseRow>, me: Seq<char>) -> Seq<LeaseRow> {
    t.filter(|r: LeaseRow| is_available(r, me))
}

/// The keys of some rows.
pub open spec fn keys(t: Seq<LeaseRow>) -> Seq<Seq<char>> {
    t.map_values(|r: LeaseRow| r.key)
}

/// The live workers of a table, `me` included.
pub open spec fn live_workers(t: Seq<LeaseRow>, me: Seq<char>) -> Set<Seq<char>>
    decreases t.len(),
{
    if t.len() == 0 {
        set![me]
    } else {
        match live_owner(t.last()) {
            Some(w) => live_workers(t.drop_last(), me).insert(w),
            None => live_workers(t.drop_last(), me),
        }
    }
}

/// The number of leases that `who` holds and keeps alive.
pub open spec fn load(t: Seq<LeaseRow>, who: Seq<char>) -> int {
    held_rows(t, who).len() as int
}

/// `a` divided by `b`, rounded up.
pub open spec fn ceil_div(a: int, b: int) -> int {
    if a % b == 0 {
        a / b
    } else {
        a / b + 1
    }
}

/// The fair share of a worker: the active leases divided by the live workers,
/// rounded up.
pub open spec fn fair_share(t: Seq<LeaseRow>, me: Seq<char>) -> int {
    ceil_div(active_rows(t).len() as int, live_workers(t, me).len() as int)
}

/// `a` holds fewer leases than `b`, or as many and does not come before it by
/// name.
pub open spec fn yields(t: Seq<LeaseRow>, a: Seq<char>, b: Seq<char>) -> bool {
    load(t, a) < load(t, b) || (load(t, a) == load(t, b) && !text::lex_less(a, b))
}

/// The worker to steal from: not `me`, with more than the fair share, and with
/// the most leases. Of several such workers it is the first by name.
pub open spec fn is_victim(t: Seq<LeaseRow>, me: Seq<char>, who: Seq<char>) -> bool {
    &&& who != me
    &&& load(t, who) > fair_share(t, me)
    &&& forall|w: Seq<char>| w != me ==> #[trigger] yields(t, w, who)
}

pub open spec fn min2(a: int, b: int) -> int {
    if a <= b {
        a
    } else {
        b
    }
}

/// How many available leases `me` takes.
pub open spec fn claimed_count(t: Seq<LeaseRow>, me: Seq<char>, max_to_take: int) -> int {
    min2(
        min2(fair_share(t, me) - load(t, me), max_to_take),
        available_rows(t, me).len() as int,
    )
}

/// How many leases `me` steals from `victim`.
pub open spec fn stolen_count(
    t: Seq<LeaseRow>,
    me: Seq<char>,
    max_to_take: int,
    victim: Seq<char>,
) -> int {
    let claimed = claimed_count(t, me, max_to_take);
    min2(
        load(t, victim) - fair_share(t, me),
        min2(fair_share(t, me) - load(t, me), max_to_take) - claimed,
    )
}

/// `take` is what `me` should take: nothing at or above the fair share; else
/// available leases in key order and, if those do not suffice, leases of the
/// most-loaded worker above the fair share, in key order.
pub open spec fn balances(
    t: Seq<LeaseRow>,
    me: Seq<char>,
    max_to_take: int,
    take: Seq<Seq<char>>,
) -> bool {
    if active_rows(t).len() == 0 || max_to_take == 0 || load(t, me) >= fair_share(t, me) {
        take == Seq::<Seq<char>>::empty()
    } else {
        let claimed = claimed_count(t, me, max_to_take);
        let free = collections::sorted(keys(available_rows(t, me))).take(claimed);
        if claimed < min2(fair_share(t, me) - load(t, me), max_to_take)
            && exists|who: Seq<char>| is_victim(t, me, who) {
            exists|who: Seq<char>|
                {
                    &&& #[trigger] is_victim(t, me, who)
                    &&& take == free + collections::sorted(keys(held_rows(t, who))).take(
                        stolen_count(t, me, max_to_take, who),
                    )
                }
        } else {
            take == free
        }
    }
}

proof fn lemma_live_workers(t: Seq<LeaseRow>, me: Seq<char>)
    ensures
        live_workers(t, me).finite(),
        live_workers(t, me).len() >= 1,
        live_workers(t, me).contains(me),
        forall|w: Seq<char>| #[trigger] live_workers(t, me).contains(w) <==> w == me || load(t, w) > 0,
    decreases t.len(),
{
    reveal(Seq::filter);
    if t.len() > 0 {
        lemma_live_workers(t.drop_last(), me);
        assert forall|w: Seq<char>| #[trigger] live_workers(t, me).contains(w) <==> w == me || load(
            t,
            w,
        ) > 0 by {
            assert(load(t.drop_last(), w) >= 0);
            assert(live_workers(t.drop_last(), me).contains(w) <==> w == me || load(t.drop_last(), w)
                > 0);
        }
        assert(live_workers(t, me).contains(me));
        assert(live_workers(t, me).len() > 0);
    } else {
        assert(set![me].len() == 1);
    }
}

/// The string that holds the owner, if any: its text and whether it is `who`.
fn owner_is(owner: &Option<String>, who: &str) -> (r: bool)
    ensures
        r == (collections::optional_text(*owner) == Some(who@)),
{
    match owner {
        Some(o) => text::same(o.as_str(), who),
        None => false,
    }
}

/// Copies of the keys of the rows that the live worker `who` holds.
fn held_keys(leases: &[LeaseSnapshot], who: &str) -> (r: Vec<String>)
    ensures
        collections::texts(r@) == keys(held_rows(rows(leases@), who@)),
{
    let mut r: Vec<String> = Vec::new();
    let mut i: usize = 0;
    let ghost t = rows(leases@);
    let ghost p = |x: LeaseRow| live_owner(x) == Some(who@);
    assert(keys(t.take(0).filter(p)) =~= collections::texts(r@)) by {
        reveal(Seq::filter);
    }
    while i < leases.len()
        invariant
            i <= leases.len(),
            t == rows(leases@),
            p == (|x: LeaseRow| live_owner(x) == Some(who@)),
            collections::texts(r@) == keys(t.take(i as int).filter(p)),
        decreases leases.len() - i,
    {
        proof {
            collections::lemma_filter_step(t, i as int, p);
        }
        assert(t[i as int] == leases@[i as int]@);
        if !leases[i].completed && !leases[i].expired && owner_is(&leases[i].owner, who) {
            let ghost before = r@;
            r.push(leases[i].lease_key.clone());
            assert(collections::texts(r@) =~= collections::texts(before).push(t[i as int].key));
            assert(keys(t.take(i + 1).filter(p)) =~= keys(t.take(i as int).filter(p)).push(
                t[i as int].key,
            ));
        }
        i = i + 1;
    }
    assert(t.take(i as int) =~= t);
    r
}

/// Copies of the keys of the rows that `me` can claim without stealing.
fn available_keys(leases: &[LeaseSnapshot], me: &str) -> (r: Vec<String>)
    ensures
        collections::texts(r@) == keys(available_rows(rows(leases@), me@)),
{
    let mut r: Vec<String> = Vec::new();
    let mut i: usize = 0;
    let ghost t = rows(leases@);
    let ghost p = |x: LeaseRow| is_available(x, me@);
    assert(keys(t.take(0).filter(p)) =~= collections::texts(r@)) by {
        reveal(Seq::filter);
    }
    while i < leases.len()
        invariant
            i <= leases.len(),
            t == rows(leases@),
            p == (|x: LeaseRow| is_available(x, me@)),
            collections::texts(r@) == keys(t.take(i as int).filter(p)),
        decreases leases.len() - i,
    {
        proof {
            collections::lemma_filter_step(t, i as int, p);
        }
        assert(t[i as int] == leases@[i as int]@);
        if !leases[i].completed && !owner_is(&leases[i].owner, me) && (leases[i].owner.is_none()
            || leases[i].expired) {
            let ghost before = r@;
            r.push(leases[i].lease_key.clone());
            assert(collections::texts(r@) =~= collections::texts(before).push(t[i as int].key));
            assert(keys(t.take(i + 1).filter(p)) =~= keys(t.take(i as int).filter(p)).push(
                t[i as int].key,
            ));
        }
        i = i + 1;
    }
    assert(t.take(i as int) =~= t);
    r
}

/// The number of active rows and of live workers.
fn census(leases: &[LeaseSnapshot], me: &str) -> (r: (usize, usize))
    ensures
        r.0 == active_rows(rows(leases@)).len(),
        r.1 == live_workers(rows(leases@), me@).len(),
        r.1 >= 1,
{
    let mut active: usize = 0;
    let mut workers = StringSet::new();
    workers.insert(me.to_owned());
    let mut i: usize = 0;
    let ghost t = rows(leases@);
    let ghost p = |x: LeaseRow| is_active(x);
    assert(t.take(0).filter(p).len() == 0) by {
        reveal(Seq::filter);
    }
    assert(workers@ =~= live_workers(t.take(0), me@));
    while i < leases.len()
        invariant
            i <= leases.len(),
            t == rows(leases@),
            p == (|x: LeaseRow| is_active(x)),
            active == t.take(i as int).filter(p).len(),
            active <= i,
            workers@ == live_workers(t.take(i as int), me@),
        decreases leases.len() - i,
    {
        proof {
            collections::lemma_filter_step(t, i as int, p);
        }
        assert(t[i as int] == leases@[i as int]@);
        assert(t.take(i + 1).drop_last() =~= t.take(i as int));
        if !leases[i].completed {
            active = active + 1;
            if !leases[i].expired {
                if let Some(o) = clone_optional(&leases[i].owner) {
                    workers.insert(o);
                }
            }
        }
        i = i + 1;
    }
    assert(t.take(i as int) =~= t);
    proof {
        lemma_live_workers(t, me@);
    }
    (active, workers.len())
}

proof fn lemma_holds_some(t: Seq<LeaseRow>, i: int, who: Seq<char>)
    requires
        0 <= i < t.len(),
        live_owner(t[i]) == Some(who),
    ensures
        load(t, who) > 0,
{
    let p = |x: LeaseRow| live_owner(x) == Some(who);
    t.lemma_filter_contains(p, i);
    assert(held_rows(t, who).contains(t[i]));
}

/// What yields to a worker yields to every worker that comes before it.
proof fn lemma_yields_on(t: Seq<LeaseRow>, b: Seq<char>, o: Seq<char>)
    requires
        load(t, b) < load(t, o) || (load(t, b) == load(t, o) && text::lex_less(o, b)),
    ensures
        yields(t, b, o),
        forall|w: Seq<char>| yields(t, w, b) ==> #[trigger] yields(t, w, o),
{
    text::lemma_lex_less_total(o, b);
    assert forall|w: Seq<char>| yields(t, w, b) implies #[trigger] yields(t, w, o) by {
        text::lemma_lex_less_total(w, b);
        if text::lex_less(w, o) && text::lex_less(o, b) {
            text::lemma_lex_less_transitive(w, o, b);
        }
    }
}

/// The worker other than `me` that holds the most leases, the first by name of
/// several, and how many it holds, if any other worker holds one.
fn most_loaded(leases: &[LeaseSnapshot], me: &str) -> (r: Option<(String, usize)>)
    ensures
        match r {
            Some((who, n)) => {
                &&& who@ != me@
                &&& n == load(rows(leases@), who@)
                &&& forall|w: Seq<char>| w != me@ ==> #[trigger] yields(rows(leases@), w, who@)
            },
            None => forall|w: Seq<char>| w != me@ ==> #[trigger] load(rows(leases@), w) == 0,
        },
{
    let ghost t = rows(leases@);
    let mut best: Option<(String, usize)> = None;
    let mut i: usize = 0;
    while i < leases.len()
        invariant
            i <= leases.len(),
            t == rows(leases@),
            match best {
                Some((who, n)) => who@ != me@ && n == load(t, who@) && n > 0,
                None => true,
            },
            forall|k: int|
                0 <= k < i && live_owner(#[trigger] t[k]) is Some && live_owner(t[k]) != Some(me@)
                    ==> best is Some && yields(t, live_owner(t[k])->0, (best->0).0@),
        decreases leases.len() - i,
    {
        assert(t[i as int] == leases@[i as int]@);
        if !leases[i].completed && !leases[i].expired {
            if let Some(o) = clone_optional(&leases[i].owner) {
                if !text::same(o.as_str(), me) {
                    let held = held_keys(leases, o.as_str());
                    assert(collections::texts(held@).len() == load(t, o@));
                    let n: usize = held.len();
                    let better = match &best {
                        Some(b) => b.1 < n || (b.1 == n && text::less(o.as_str(), b.0.as_str())),
                        None => true,
                    };
                    proof {
                        lemma_holds_some(t, i as int, o@);
                        text::lemma_lex_less_total(o@, o@);
                        if better && best is Some {
                            lemma_yields_on(t, (best->0).0@, o@);
                        }
                    }
                    if better {
                        best = Some((o, n));
                    }
                }
            }
        }
        i = i + 1;
    }
    assert forall|w: Seq<char>| w != me@ && #[trigger] load(t, w) > 0 implies best is Some
        && yields(t, w, (best->0).0@) by {
        let h = held_rows(t, w);
        let p = |x: LeaseRow| live_owner(x) == Some(w);
        assert(h == t.filter(p));
        t.lemma_filter_pred(p, 0);
        assert(h.contains(h[0]));
        t.lemma_filter_contains_rev(p, h[0]);
        let k = t.index_of(h[0]);
        assert(live_owner(t[k]) == Some(w));
    }
    proof {
        if best is Some {
            let who = (best->0).0@;
            assert forall|w: Seq<char>| w != me@ implies #[trigger] yields(t, w, who) by {
                assert(load(t, w) > 0 ==> yields(t, w, who));
            }
        }
    }
    best
}

/// The first `n` strings of `from`, appended to `to`.
fn append_first(to: &mut Vec<String>, from: &Vec<String>, n: usize)
    requires
        n <= from.len(),
    ensures
        collections::texts(final(to)@) == collections::texts(old(to)@) + collections::texts(
            from@,
        ).take(n as int),
{
    let ghost start = collections::texts(to@);
    let mut i: usize = 0;
    assert(start =~= start + collections::texts(from@).take(0));
    while i < n
        invariant
            i <= n <= from.len(),
            collections::texts(to@) == start + collections::texts(from@).take(i as int),
        decreases n - i,
    {
        let ghost before = to@;
        to.push(from[i].clone());
        assert(collections::texts(to@) =~= collections::texts(before).push(from@[i as int]@));
        assert(start + collections::texts(from@).take(i + 1) =~= (start + collections::texts(
            from@,
        ).take(i as int)).push(from@[i as int]@));
        i = i + 1;
    }
}

fn min_usize(a: usize, b: usize) -> (r: usize)
    ensures
        r == min2(a as int, b as int),
{
    if a <= b {
        a
    } else {
        b
    }
}

/// The leases that `me` should attempt to take, at most `max_to_take`.
///
/// A claim made on the strength of the result may still lose the race for the
/// lease; that is expected.
pub fn compute_leases_to_take(leases: &[LeaseSnapshot], me: &str, max_to_take: usize) -> (take: Vec<
    String,
>)
    ensures
        balances(rows(leases@), me@, max_to_take as int, collections::texts(take@)),
{
    let ghost t = rows(leases@);
    let mut take: Vec<String> = Vec::new();
    assert(collections::texts(take@) =~= Seq::empty());
    let (total, workers) = census(leases, me);
    if total == 0 || max_to_take == 0 {
        return take;
    }
    let share: usize = total / workers;
    let target: usize = if total % workers == 0 {
        share
    } else {
        proof {
            assert(workers != 1);
            vstd::arithmetic::div_mod::lemma_div_decreases(total as int, workers as int);
        }
        share + 1
    };
    assert(target == fair_share(t, me@));
    let mine = held_keys(leases, me);
    assert(collections::texts(mine@).len() == load(t, me@));
    if mine.len() >= target {
        return take;
    }
    let wanted = min_usize(target - mine.len(), max_to_take);
    let free = sort_strings(&available_keys(leases, me));
    proof {
        collections::lemma_sorted(keys(available_rows(t, me@)));
        assert(collections::texts(free@).len() == free.len());
    }
    let claimed = min_usize(wanted, free.len());
    append_first(&mut take, &free, claimed);
    let ghost free_part = collections::sorted(keys(available_rows(t, me@))).take(claimed as int);
    assert(collections::texts(take@) =~= free_part);
    if claimed < wanted {
        let most = most_loaded(leases, me);
        if let Some((victim, count)) = &most {
            let count: usize = *count;
            if count > target {
                assert(is_victim(t, me@, victim@));
                let held = sort_strings(&held_keys(leases, victim.as_str()));
                proof {
                    collections::lemma_sorted(keys(held_rows(t, victim@)));
                    assert(collections::texts(held@).len() == held.len());
                }
                let stolen = min_usize(count - target, wanted - claimed);
                append_first(&mut take, &held, stolen);
                return take;
            }
        }
        assert forall|who: Seq<char>| !is_victim(t, me@, who) by {
            if most is Some {
                assert(who != me@ ==> yields(t, who, (most->0).0@));
            }
        }
    }
    take
}

proof fn lemma_taken_keys(s: Seq<Seq<char>>, n: int, k: Seq<char>)
    requires
        0 <= n <= s.len(),
        collections::sorted(s).take(n).contains(k),
    ensures
        s.contains(k),
{
    broadcast use vstd::seq_lib::group_to_multiset_ensures;

    collections::lemma_sorted(s);
    let i = collections::sorted(s).take(n).index_of(k);
    assert(collections::sorted(s)[i] == k);
    assert(collections::sorted(s).to_multiset().contains(k));
    assert(s.to_multiset().contains(k));
}

proof fn lemma_filtered_key(t: Seq<LeaseRow>, p: spec_fn(LeaseRow) -> bool, k: Seq<char>)
    requires
        keys(t.filter(p)).contains(k),
    ensures
        exists|r: LeaseRow| #[trigger] t.contains(r) && p(r) && r.key == k,
{
    let f = t.filter(p);
    let i = keys(f).index_of(k);
    t.lemma_filter_pred(p, i);
    assert(f.contains(f[i]));
    t.lemma_filter_contains_rev(p, f[i]);
    assert(t.contains(f[i]) && p(f[i]) && f[i].key == k);
}

/// The decision is deterministic: a table, a worker and a limit leave one
/// choice.
pub proof fn law_the_decision_is_unique(
    t: Seq<LeaseRow>,
    me: Seq<char>,
    max_to_take: int,
    a: Seq<Seq<char>>,
    b: Seq<Seq<char>>,
)
    requires
        balances(t, me, max_to_take, a),
        balances(t, me, max_to_take, b),
    ensures
        a == b,
{
    assert forall|x: Seq<char>, y: Seq<char>| #[trigger]
        is_victim(t, me, x) && #[trigger] is_victim(t, me, y) implies x == y by {
        assert(yields(t, x, y) && yields(t, y, x));
        text::lemma_lex_less_total(x, y);
    }
}

/// The order of the table does not matter: a permuted table leaves the same
/// choice.
pub proof fn law_the_order_of_the_table_does_not_matter(
    t: Seq<LeaseRow>,
    u: Seq<LeaseRow>,
    me: Seq<char>,
    max_to_take: int,
    a: Seq<Seq<char>>,
    b: Seq<Seq<char>>,
)
    requires
        t.to_multiset() == u.to_multiset(),
        balances(t, me, max_to_take, a),
        balances(u, me, max_to_take, b),
    ensures
        a == b,
{
    assert forall|who: Seq<char>| {
        &&& #[trigger] load(t, who) == load(u, who)
        &&& collections::sorted(keys(held_rows(t, who))) == collections::sorted(
            keys(held_rows(u, who)),
        )
    } by {
        collections::lemma_permuted_filter(t, u, |r: LeaseRow| live_owner(r) == Some(who));
        collections::lemma_permuted_map(held_rows(t, who), held_rows(u, who), |r: LeaseRow| r.key);
        collections::lemma_permuted_sorted(keys(held_rows(t, who)), keys(held_rows(u, who)));
    }
    collections::lemma_permuted_filter(t, u, |r: LeaseRow| is_active(r));
    collections::lemma_permuted_filter(t, u, |r: LeaseRow| is_available(r, me));
    collections::lemma_permuted_map(
        available_rows(t, me),
        available_rows(u, me),
        |r: LeaseRow| r.key,
    );
    collections::lemma_permuted_sorted(
        keys(available_rows(t, me)),
        keys(available_rows(u, me)),
    );
    lemma_live_workers(t, me);
    lemma_live_workers(u, me);
    assert forall|w: Seq<char>| #[trigger] live_workers(t, me).contains(w) <==> live_workers(
        u,
        me,
    ).contains(w) by {
        assert(load(t, w) == load(u, w));
    }
    assert(live_workers(t, me) =~= live_workers(u, me));
    assert(load(t, me) == load(u, me));
    assert forall|who: Seq<char>| #[trigger] is_victim(t, me, who) <==> is_victim(u, me, who) by {
        assert(load(t, who) == load(u, who));
        assert forall|w: Seq<char>| #[trigger] yields(t, w, who) <==> yields(u, w, who) by {
            assert(load(t, w) == load(u, w));
        }
        if is_victim(t, me, who) {
            assert forall|w: Seq<char>| w != me implies #[trigger] yields(u, w, who) by {
                assert(yields(t, w, who));
            }
        }
        if is_victim(u, me, who) {
            assert forall|w: Seq<char>| w != me implies #[trigger] yields(t, w, who) by {
                assert(yields(u, w, who));
            }
        }
    }
    assert(balances(t, me, max_to_take, b)) by {
        let claimed = claimed_count(t, me, max_to_take);
        assert(claimed == claimed_count(u, me, max_to_take));
        if exists|who: Seq<char>| is_victim(u, me, who) {
            let free = collections::sorted(keys(available_rows(u, me))).take(claimed);
            if exists|who: Seq<char>|
                {
                    &&& #[trigger] is_victim(u, me, who)
                    &&& b == free + collections::sorted(keys(held_rows(u, who))).take(
                        stolen_count(u, me, max_to_take, who),
                    )
                } {
                let who = choose|who: Seq<char>|
                    {
                        &&& #[trigger] is_victim(u, me, who)
                        &&& b == free + collections::sorted(keys(held_rows(u, who))).take(
                            stolen_count(u, me, max_to_take, who),
                        )
                    };
                assert(is_victim(t, me, who));
                assert(load(t, who) == load(u, who));
            }
            let who = choose|who: Seq<char>| is_victim(u, me, who);
            assert(is_victim(t, me, who));
        }
    }
    law_the_decision_is_unique(t, me, max_to_take, a, b);
}

/// A worker takes no more than it may, and with what it takes it does not
/// exceed its fair share. At or above its fair share it takes nothing.
pub proof fn law_takes_stay_within_fair_share(
    t: Seq<LeaseRow>,
    me: Seq<char>,
    max_to_take: nat,
    take: Seq<Seq<char>>,
)
    requires
        balances(t, me, max_to_take as int, take),
    ensures
        take.len() <= max_to_take,
        load(t, me) >= fair_share(t, me) ==> take.len() == 0,
        load(t, me) < fair_share(t, me) ==> load(t, me) + take.len() <= fair_share(t, me),
{
    collections::lemma_sorted(keys(available_rows(t, me)));
    assert forall|who: Seq<char>| #[trigger] is_victim(t, me, who) implies collections::sorted(
        keys(held_rows(t, who)),
    ).len() == load(t, who) by {
        collections::lemma_sorted(keys(held_rows(t, who)));
    }
}

/// A worker takes only leases that still need processing, and only ones that
/// nobody holds, whose holder is dead, or that another live worker holds.
pub proof fn law_takes_only_leases_of_others(
    t: Seq<LeaseRow>,
    me: Seq<char>,
    max_to_take: nat,
    take: Seq<Seq<char>>,
    k: Seq<char>,
)
    requires
        balances(t, me, max_to_take as int, take),
        take.contains(k),
    ensures
        exists|r: LeaseRow| #[trigger]
            t.contains(r) && r.key == k && !r.completed && r.owner != Some(me),
{
    let avail = keys(available_rows(t, me));
    collections::lemma_sorted(avail);
    let claimed = claimed_count(t, me, max_to_take as int);
    let free = collections::sorted(avail).take(claimed);
    if free.contains(k) {
        lemma_taken_keys(avail, claimed, k);
        lemma_filtered_key(t, |r: LeaseRow| is_available(r, me), k);
    } else {
        let who = choose|who: Seq<char>|
            {
                &&& #[trigger] is_victim(t, me, who)
                &&& take == free + collections::sorted(keys(held_rows(t, who))).take(
                    stolen_count(t, me, max_to_take as int, who),
                )
            };
        let held = keys(held_rows(t, who));
        let n = stolen_count(t, me, max_to_take as int, who);
        collections::lemma_sorted(held);
        let i = take.index_of(k);
        if i < free.len() {
            assert(free[i] == k);
            assert(false);
        }
        assert(collections::sorted(held).take(n)[i - free.len()] == k);
        lemma_taken_keys(held, n, k);
        lemma_filtered_key(t, |r: LeaseRow| live_owner(r) == Some(who), k);
    }
}

/// Stealing leaves the victim at or above the fair share, and happens only
/// when every available lease is taken already.
pub proof fn law_victim_keeps_its_fair_share(
    t: Seq<LeaseRow>,
    me: Seq<char>,
    max_to_take: nat,
    take: Seq<Seq<char>>,
)
    requires
        balances(t, me, max_to_take as int, take),
        take.len() > available_rows(t, me).len(),
    ensures
        exists|who: Seq<char>|
            {
                let stolen = take.len() - available_rows(t, me).len();
                &&& #[trigger] is_victim(t, me, who)
                &&& load(t, who) - stolen >= fair_share(t, me)
                &&& take == collections::sorted(keys(available_rows(t, me)))
                    + collections::sorted(keys(held_rows(t, who))).take(stolen)
            },
{
    let avail = keys(available_rows(t, me));
    collections::lemma_sorted(avail);
    let claimed = claimed_count(t, me, max_to_take as int);
    let free = collections::sorted(avail).take(claimed);
    let who = choose|who: Seq<char>|
        {
            &&& #[trigger] is_victim(t, me, who)
            &&& take == free + collections::sorted(keys(held_rows(t, who))).take(
                stolen_count(t, me, max_to_take as int, who),
            )
        };
    collections::lemma_sorted(keys(held_rows(t, who)));
    assert(free =~= collections::sorted(avail));
    assert(is_victim(t, me, who));
}

/// A worker that is the only live one takes every available lease, in key
/// order, as far as its limit allows.
pub proof fn law_sole_live_worker_takes_all(
    t: Seq<LeaseRow>,
    me: Seq<char>,
    max_to_take: nat,
    take: Seq<Seq<char>>,
)
    requires
        balances(t, me, max_to_take as int, take),
        forall|w: Seq<char>| w != me ==> #[trigger] load(t, w) == 0,
    ensures
        take == collections::sorted(keys(available_rows(t, me))).take(
            min2(available_rows(t, me).len() as int, max_to_take as int),
        ),
{
    collections::lemma_sorted(keys(available_rows(t, me)));
    lemma_live_workers(t, me);
    assert(live_workers(t, me) =~= set![me]);
    assert(set![me].len() == 1);
    lemma_active_split(t, me);
    assert(fair_share(t, me) == active_rows(t).len());
    assert(collections::sorted(keys(available_rows(t, me))).take(0) =~= Seq::empty());
}

/// Without other live workers, an active lease is mine or available, unless
/// it carries my name and is marked as expired.
proof fn lemma_active_split(t: Seq<LeaseRow>, me: Seq<char>)
    requires
        forall|w: Seq<char>| w != me ==> #[trigger] load(t, w) == 0,
    ensures
        available_rows(t, me).len() + load(t, me) <= active_rows(t).len(),
    decreases t.len(),
{
    reveal(Seq::filter);
    if t.len() > 0 {
        assert forall|w: Seq<char>| w != me implies #[trigger] load(t.drop_last(), w) == 0 by {
            assert(load(t, w) == 0);
        }
        lemma_active_split(t.drop_last(), me);
    }
}

/// The lease is unfinished and held under the name `who` by a live worker.
pub open spec fn is_kept_by(l: LeaseSnapshot, who: Seq<char>) -> bool {
    &&& !l.completed
    &&& !l.expired
    &&& l.owner matches Some(o) && o@ == who
}

/// The lease is unfinished, nobody alive holds it, and it is not under the name
/// of `me`.
pub open spec fn is_left_to(l: LeaseSnapshot, me: Seq<char>) -> bool {
    &&& !l.completed
    &&& match l.owner {
        None => true,
        Some(o) => l.expired && o@ != me,
    }
}

/// How many leases `who` keeps.
pub open spec fn kept(s: Seq<LeaseSnapshot>, who: Seq<char>) -> int
    decreases s.len(),
{
    if s.len() == 0 {
        0
    } else {
        kept(s.drop_last(), who) + (if is_kept_by(s.last(), who) {
            1int
        } else {
            0int
        })
    }
}

/// How many leases are left to `me`.
pub open spec fn left(s: Seq<LeaseSnapshot>, me: Seq<char>) -> int
    decreases s.len(),
{
    if s.len() == 0 {
        0
    } else {
        left(s.drop_last(), me) + (if is_left_to(s.last(), me) {
            1int
        } else {
            0int
        })
    }
}

/// How many leases are unfinished.
pub open spec fn unfinished(s: Seq<LeaseSnapshot>) -> int
    decreases s.len(),
{
    if s.len() == 0 {
        0
    } else {
        unfinished(s.drop_last()) + (if s.last().completed {
            0int
        } else {
            1int
        })
    }
}

/// The workers that share the leases: `me`, and everyone who keeps one.
pub open spec fn workforce(s: Seq<LeaseSnapshot>, me: Seq<char>) -> Set<Seq<char>> {
    Set::new(|w: Seq<char>| w == me || kept(s, w) > 0)
}

/// `share` is the unfinished leases divided by the workers, rounded up.
pub open spec fn is_even_share(s: Seq<LeaseSnapshot>, me: Seq<char>, share: int) -> bool {
    &&& share >= 0
    &&& unfinished(s) <= share * workforce(s, me).len()
    &&& share > 0 ==> (share - 1) * workforce(s, me).len() < unfinished(s)
}

proof fn lemma_counts(s: Seq<LeaseSnapshot>, me: Seq<char>)
    ensures
        active_rows(rows(s)).len() == unfinished(s),
        available_rows(rows(s), me).len() == left(s, me),
        forall|w: Seq<char>| #[trigger] load(rows(s), w) == kept(s, w),
        0 <= left(s, me) <= unfinished(s),
    decreases s.len(),
{
    reveal(Seq::filter);
    let t = rows(s);
    if s.len() > 0 {
        let rest = s.drop_last();
        lemma_counts(rest, me);
        assert(t.drop_last() =~= rows(rest));
        assert(t.last() == s.last()@);
        assert forall|w: Seq<char>| #[trigger] load(t, w) == kept(s, w) by {
            assert(load(rows(rest), w) == kept(rest, w));
            assert((live_owner(t.last()) == Some(w)) == is_kept_by(s.last(), w));
        }
        assert(is_available(t.last(), me) == is_left_to(s.last(), me));
    }
}

proof fn lemma_even_share(s: Seq<LeaseSnapshot>, me: Seq<char>, share: int)
    requires
        is_even_share(s, me, share),
    ensures
        live_workers(rows(s), me) == workforce(s, me),
        workforce(s, me).len() >= 1,
        fair_share(rows(s), me) == share,
{
    lemma_counts(s, me);
    lemma_live_workers(rows(s), me);
    assert forall|w: Seq<char>| workforce(s, me).contains(w) == #[trigger] live_workers(
        rows(s),
        me,
    ).contains(w) by {
        assert(load(rows(s), w) == kept(s, w));
    }
    assert(live_workers(rows(s), me) =~= workforce(s, me));
    let a = unfinished(s);
    let b = workforce(s, me).len() as int;
    let q = a / b;
    let m = a % b;
    assert(a == q * b + m && 0 <= m < b) by {
        vstd::arithmetic::div_mod::lemma_fundamental_div_mod(a, b);
        vstd::arithmetic::mul::lemma_mul_is_commutative(q, b);
    }
    assert(a >= 0);
    assert(share == (if m == 0 {
        q
    } else {
        q + 1
    })) by (nonlinear_arith)
        requires
            a == q * b + m,
            0 <= m < b,
            a >= 0,
            share >= 0,
            a <= share * b,
            share > 0 ==> (share - 1) * b < a,
    ;
}

/// There is one fair share, whatever the table.
pub proof fn law_there_is_one_fair_share(s: Seq<LeaseSnapshot>, me: Seq<char>, share: int)
    ensures
        is_even_share(s, me, share) <==> share == fair_share(rows(s), me),
{
    if is_even_share(s, me, share) {
        lemma_even_share(s, me, share);
    }
    if share == fair_share(rows(s), me) {
        lemma_counts(s, me);
        lemma_live_workers(rows(s), me);
        assert forall|w: Seq<char>| workforce(s, me).contains(w) == #[trigger] live_workers(
            rows(s),
            me,
        ).contains(w) by {
            assert(load(rows(s), w) == kept(s, w));
        }
        assert(live_workers(rows(s), me) =~= workforce(s, me));
        let a = unfinished(s);
        let b = workforce(s, me).len() as int;
        let q = a / b;
        let m = a % b;
        assert(a == q * b + m && 0 <= m < b) by {
            vstd::arithmetic::div_mod::lemma_fundamental_div_mod(a, b);
            vstd::arithmetic::mul::lemma_mul_is_commutative(q, b);
        }
        assert(q >= 0) by {
            vstd::arithmetic::div_mod::lemma_div_pos_is_pos(a, b);
        }
        assert(a <= share * b && (share > 0 ==> (share - 1) * b < a)) by (nonlinear_arith)
            requires
                a == q * b + m,
                0 <= m < b,
                a >= 0,
                q >= 0,
                share == (if m == 0 {
                    q
                } else {
                    q + 1
                }),
        ;
    }
}

/// How much a worker takes: nothing at or above its share. Below it, as much as
/// it lacks and its limit allows, first of what is left to it, and then of what
/// the most loaded other worker keeps beyond its own share. So a worker below its
/// share never goes empty-handed while something is left to it or another worker
/// keeps more than its share.
pub proof fn law_takes_what_it_lacks(
    s: Seq<LeaseSnapshot>,
    me: Seq<char>,
    max_to_take: nat,
    take: Seq<Seq<char>>,
    share: int,
    top: Seq<char>,
)
    requires
        balances(rows(s), me, max_to_take as int, take),
        is_even_share(s, me, share),
        top != me,
        forall|w: Seq<char>| w != me ==> #[trigger] kept(s, w) <= kept(s, top),
    ensures
        ({
            let lack = share - kept(s, me);
            let want = if lack <= max_to_take {
                lack
            } else {
                max_to_take as int
            };
            let spare = if kept(s, top) > share {
                kept(s, top) - share
            } else {
                0
            };
            &&& lack <= 0 ==> take.len() == 0
            &&& lack > 0 && left(s, me) >= want ==> take.len() == want
            &&& lack > 0 && left(s, me) < want && left(s, me) + spare >= want ==> take.len() == want
            &&& lack > 0 && left(s, me) + spare < want ==> take.len() == left(s, me) + spare
            &&& lack > 0 && max_to_take > 0 && (left(s, me) > 0 || kept(s, top) > share)
                ==> take.len() > 0
        }),
{
    let t = rows(s);
    lemma_counts(s, me);
    lemma_even_share(s, me, share);
    assert(load(t, me) == kept(s, me));
    assert(kept(s, me) <= unfinished(s)) by {
        lemma_kept_is_unfinished(s, me);
    }
    if unfinished(s) == 0 {
        assert(share == 0) by (nonlinear_arith)
            requires
                share >= 0,
                share > 0 ==> (share - 1) * workforce(s, me).len() < 0,
                workforce(s, me).len() >= 1,
        ;
    }
    collections::lemma_sorted(keys(available_rows(t, me)));
    if kept(s, top) > share {
        lemma_a_most_loaded_worker_exists(s, me, top, share);
    }
    assert forall|who: Seq<char>| #[trigger] is_victim(t, me, who) implies {
        &&& collections::sorted(keys(held_rows(t, who))).len() == kept(s, who)
        &&& kept(s, who) == kept(s, top)
    } by {
        collections::lemma_sorted(keys(held_rows(t, who)));
        assert(load(t, who) == kept(s, who));
        assert(load(t, top) == kept(s, top));
        assert(yields(t, top, who));
    }
}

proof fn lemma_kept_is_unfinished(s: Seq<LeaseSnapshot>, who: Seq<char>)
    ensures
        0 <= kept(s, who) <= unfinished(s),
    decreases s.len(),
{
    if s.len() > 0 {
        lemma_kept_is_unfinished(s.drop_last(), who);
    }
}

/// Of the workers with the most leases, one comes first by name.
proof fn lemma_first_by_name(s: Seq<LeaseSnapshot>, names: Set<Seq<char>>, n: int) -> (who: Seq<char>)
    requires
        names.finite(),
        names.len() > 0,
        forall|w: Seq<char>| #[trigger] names.contains(w) ==> kept(s, w) == n,
    ensures
        names.contains(who),
        forall|w: Seq<char>| #[trigger] names.contains(w) ==> !text::lex_less(w, who),
    decreases names.len(),
{
    let x = names.choose();
    let rest = names.remove(x);
    text::lemma_lex_less_total(x, x);
    if rest.len() == 0 {
        assert forall|w: Seq<char>| #[trigger] names.contains(w) implies !text::lex_less(w, x) by {
            if w != x {
                assert(rest.contains(w));
            }
        }
        x
    } else {
        let y = lemma_first_by_name(s, rest, n);
        text::lemma_lex_less_total(x, y);
        if text::lex_less(x, y) {
            assert forall|w: Seq<char>| #[trigger] names.contains(w) implies !text::lex_less(
                w,
                x,
            ) by {
                if w != x && text::lex_less(w, x) {
                    assert(rest.contains(w));
                    text::lemma_lex_less_transitive(w, x, y);
                }
            }
            x
        } else {
            assert forall|w: Seq<char>| #[trigger] names.contains(w) implies !text::lex_less(
                w,
                y,
            ) by {
                if w != x {
                    assert(rest.contains(w));
                }
            }
            y
        }
    }
}

proof fn lemma_a_most_loaded_worker_exists(
    s: Seq<LeaseSnapshot>,
    me: Seq<char>,
    top: Seq<char>,
    share: int,
)
    requires
        is_even_share(s, me, share),
        top != me,
        kept(s, top) > share,
        forall|w: Seq<char>| w != me ==> #[trigger] kept(s, w) <= kept(s, top),
    ensures
        exists|who: Seq<char>| is_victim(rows(s), me, who),
{
    let t = rows(s);
    lemma_counts(s, me);
    lemma_even_share(s, me, share);
    lemma_live_workers(t, me);
    let n = kept(s, top);
    let all = workforce(s, me);
    let names = all.filter(|w: Seq<char>| w != me && kept(s, w) == n);
    assert(all.contains(top));
    all.lemma_len_filter(|w: Seq<char>| w != me && kept(s, w) == n);
    assert(names.contains(top));
    assert(names.finite());
    assert(names.len() > 0);
    let who = lemma_first_by_name(s, names, n);
    assert forall|w: Seq<char>| w != me implies #[trigger] yields(t, w, who) by {
        assert(load(t, w) == kept(s, w));
        assert(load(t, who) == kept(s, who));
        if kept(s, w) == n {
            assert(all.contains(w));
            assert(names.contains(w));
        }
    }
    assert(load(t, who) == kept(s, who));
    assert(is_victim(t, me, who));
}

/// The first `n` texts of `s` in ascending order.
proof fn lemma_first_of_sorted(s: Seq<Seq<char>>, n: int)
    requires
        0 <= n <= s.len(),
    ensures
        collections::sorted(s).take(n).len() == n,
        forall|i: int| 0 <= i < n ==> s.contains(#[trigger] collections::sorted(s).take(n)[i]),
        forall|i: int, j: int|
            0 <= i < j < n ==> !text::lex_less(
                #[trigger] collections::sorted(s).take(n)[j],
                #[trigger] collections::sorted(s).take(n)[i],
            ),
        forall|x: Seq<char>, i: int|
            #[trigger] s.contains(x) && !collections::sorted(s).take(n).contains(x) && 0 <= i < n
                ==> !text::lex_less(x, #[trigger] collections::sorted(s).take(n)[i]),
        s.no_duplicates() ==> collections::sorted(s).take(n).no_duplicates(),
{
    broadcast use vstd::seq_lib::group_to_multiset_ensures;

    let all = collections::sorted(s);
    let out = all.take(n);
    collections::lemma_sorted(s);
    assert forall|i: int| 0 <= i < n implies s.contains(#[trigger] out[i]) by {
        assert(all.contains(all[i]));
        assert(all.to_multiset().contains(all[i]));
        assert(s.to_multiset().contains(out[i]));
    }
    assert forall|x: Seq<char>, i: int|
        #[trigger] s.contains(x) && !out.contains(x) && 0 <= i < n implies !text::lex_less(
        x,
        #[trigger] out[i],
    ) by {
        assert(s.to_multiset().contains(x));
        assert(all.to_multiset().contains(x));
        assert(all.contains(x));
        let j = all.index_of(x);
        if j < n {
            assert(out[j] == x);
        }
        assert(out[i] == all[i]);
    }
    assert forall|i: int, j: int| 0 <= i < j < n implies !text::lex_less(
        #[trigger] out[j],
        #[trigger] out[i],
    ) by {
        assert(out[i] == all[i] && out[j] == all[j]);
    }
    if s.no_duplicates() {
        s.lemma_multiset_has_no_duplicates();
        all.lemma_multiset_has_no_duplicates_conv();
        assert forall|i: int, j: int| 0 <= i < out.len() && 0 <= j < out.len() && i != j implies out[i]
            != out[j] by {
            assert(out[i] == all[i] && out[j] == all[j]);
        }
    }
}

/// The keys of the rows that satisfy a predicate are keys of such snapshots, and
/// the other way round.
proof fn lemma_picked_keys(
    s: Seq<LeaseSnapshot>,
    p: spec_fn(LeaseRow) -> bool,
    q: spec_fn(LeaseSnapshot) -> bool,
    k: Seq<char>,
)
    requires
        forall|l: LeaseSnapshot| #[trigger] q(l) == p(l@),
    ensures
        keys(rows(s).filter(p)).contains(k) <==> exists|j: int|
            0 <= j < s.len() && q(#[trigger] s[j]) && s[j].lease_key@ == k,
{
    let t = rows(s);
    if keys(t.filter(p)).contains(k) {
        lemma_filtered_key(t, p, k);
        let r = choose|r: LeaseRow| #[trigger] t.contains(r) && p(r) && r.key == k;
        let j = t.index_of(r);
        assert(t[j] == s[j]@);
        assert(q(s[j]));
    }
    if exists|j: int| 0 <= j < s.len() && q(#[trigger] s[j]) && s[j].lease_key@ == k {
        let j = choose|j: int| 0 <= j < s.len() && q(#[trigger] s[j]) && s[j].lease_key@ == k;
        assert(t[j] == s[j]@);
        t.lemma_filter_contains(p, j);
        let f = t.filter(p);
        let i = f.index_of(t[j]);
        assert(keys(f)[i] == k);
    }
}

proof fn lemma_picked_keys_differ(s: Seq<LeaseSnapshot>, p: spec_fn(LeaseRow) -> bool)
    requires
        forall|i: int, j: int|
            0 <= i < j < s.len() ==> (#[trigger] s[i]).lease_key@ != (#[trigger] s[j]).lease_key@,
    ensures
        keys(rows(s).filter(p)).no_duplicates(),
    decreases s.len(),
{
    reveal(Seq::filter);
    if s.len() > 0 {
        let rest = s.drop_last();
        lemma_picked_keys_differ(rest, p);
        assert(rows(s).drop_last() =~= rows(rest));
        let before = keys(rows(rest).filter(p));
        let last = s.last()@;
        if p(last) {
            assert(keys(rows(s).filter(p)) =~= before.push(last.key));
            if before.contains(last.key) {
                lemma_filtered_key(rows(rest), p, last.key);
                let r = choose|r: LeaseRow| #[trigger]
                    rows(rest).contains(r) && p(r) && r.key == last.key;
                let j = rows(rest).index_of(r);
                assert(rows(rest)[j] == rest[j]@);
                assert(s[j].lease_key@ == s[s.len() - 1].lease_key@);
            }
        }
    }
}

/// `k` is the key of a lease that is left to `me`.
pub open spec fn is_key_left(s: Seq<LeaseSnapshot>, me: Seq<char>, k: Seq<char>) -> bool {
    exists|j: int| 0 <= j < s.len() && is_left_to(#[trigger] s[j], me) && s[j].lease_key@ == k
}

/// `k` is the key of a lease that `who` keeps.
pub open spec fn is_key_kept(s: Seq<LeaseSnapshot>, who: Seq<char>, k: Seq<char>) -> bool {
    exists|j: int| 0 <= j < s.len() && is_kept_by(#[trigger] s[j], who) && s[j].lease_key@ == k
}

/// What `take` holds beyond what is left to `me` comes from `v`, which keeps the
/// most leases of all others and stays with its share: the first by key.
pub open spec fn relieves(
    s: Seq<LeaseSnapshot>,
    me: Seq<char>,
    take: Seq<Seq<char>>,
    share: int,
    v: Seq<char>,
) -> bool {
    &&& v != me
    &&& kept(s, v) > share
    &&& kept(s, v) - (take.len() - left(s, me)) >= share
    &&& forall|w: Seq<char>| w != me ==> #[trigger] kept(s, w) <= kept(s, v)
    &&& forall|i: int|
        left(s, me) <= i < take.len() ==> is_key_kept(s, v, #[trigger] take[i])
    &&& forall|i: int, j: int|
        left(s, me) <= i < j < take.len() ==> !text::lex_less(
            #[trigger] take[j],
            #[trigger] take[i],
        )
    &&& forall|i: int, j: int|
        left(s, me) <= i < take.len() && 0 <= j < s.len() && is_kept_by(#[trigger] s[j], v)
            && !take.contains(s[j].lease_key@) ==> !text::lex_less(
            s[j].lease_key@,
            #[trigger] take[i],
        )
}

/// Which leases a worker takes: first those that are left to it, in the order of
/// their keys and none before a smaller one; then, and only if that is all of
/// them, leases of one other live worker, which has the most leases of all
/// others and more than the share, again in the order of their keys and none
/// before a smaller one. No lease is taken twice.
pub proof fn law_takes_free_leases_first_and_then_from_the_most_loaded(
    s: Seq<LeaseSnapshot>,
    me: Seq<char>,
    max_to_take: nat,
    take: Seq<Seq<char>>,
    share: int,
)
    requires
        balances(rows(s), me, max_to_take as int, take),
        is_even_share(s, me, share),
    ensures
        forall|i: int|
            0 <= i < take.len() && i < left(s, me) ==> is_key_left(s, me, #[trigger] take[i]),
        forall|i: int, j: int|
            0 <= i < j < take.len() && j < left(s, me) ==> !text::lex_less(
                #[trigger] take[j],
                #[trigger] take[i],
            ),
        forall|i: int, j: int|
            0 <= i < take.len() && i < left(s, me) && 0 <= j < s.len() && is_left_to(
                #[trigger] s[j],
                me,
            ) && !take.contains(s[j].lease_key@) ==> !text::lex_less(
                s[j].lease_key@,
                #[trigger] take[i],
            ),
        take.len() > left(s, me) ==> exists|v: Seq<char>| #[trigger]
            relieves(s, me, take, share, v),
        (forall|i: int, j: int|
            0 <= i < j < s.len() ==> (#[trigger] s[i]).lease_key@ != (#[trigger] s[j]).lease_key@)
            ==> take.no_duplicates(),
{
    let t = rows(s);
    lemma_counts(s, me);
    lemma_even_share(s, me, share);
    assert(load(t, me) == kept(s, me));
    let free_row = |r: LeaseRow| is_available(r, me);
    let free = |l: LeaseSnapshot| is_left_to(l, me);
    let avail = keys(available_rows(t, me));
    let claimed = claimed_count(t, me, max_to_take as int);
    let distinct = forall|i: int, j: int|
        0 <= i < j < s.len() ==> (#[trigger] s[i]).lease_key@ != (#[trigger] s[j]).lease_key@;
    if take.len() > 0 {
        let first = collections::sorted(avail).take(claimed);
        lemma_first_of_sorted(avail, claimed);
        assert forall|k: Seq<char>| #[trigger] avail.contains(k) <==> is_key_left(s, me, k) by {
            lemma_picked_keys(s, free_row, free, k);
            assert(forall|j: int| free(#[trigger] s[j]) == is_left_to(s[j], me));
        }
        if distinct {
            lemma_picked_keys_differ(s, free_row);
        }
        assert forall|j: int| 0 <= j < s.len() && is_left_to(#[trigger] s[j], me) implies avail.contains(
            s[j].lease_key@,
        ) by {}
        if take == first {
            assert(take.len() <= left(s, me));
        } else {
            let v = choose|who: Seq<char>|
                {
                    &&& #[trigger] is_victim(t, me, who)
                    &&& take == first + collections::sorted(keys(held_rows(t, who))).take(
                        stolen_count(t, me, max_to_take as int, who),
                    )
                };
            let held_row = |r: LeaseRow| live_owner(r) == Some(v);
            let held_one = |l: LeaseSnapshot| is_kept_by(l, v);
            let held = keys(held_rows(t, v));
            let n = stolen_count(t, me, max_to_take as int, v);
            let second = collections::sorted(held).take(n);
            assert(load(t, v) == kept(s, v));
            lemma_first_of_sorted(held, n);
            assert(claimed == avail.len());
            assert(first.len() == left(s, me));
            assert(take == first + second);
            assert forall|k: Seq<char>| #[trigger] held.contains(k) <==> is_key_kept(s, v, k) by {
                lemma_picked_keys(s, held_row, held_one, k);
                assert(forall|j: int| held_one(#[trigger] s[j]) == is_kept_by(s[j], v));
            }
            assert forall|j: int| 0 <= j < s.len() && is_kept_by(#[trigger] s[j], v) implies held.contains(
                s[j].lease_key@,
            ) by {}
            assert forall|x: Seq<char>| first.contains(x) || second.contains(x) implies
                #[trigger] take.contains(x) by {
                if first.contains(x) {
                    assert(take[first.index_of(x)] == x);
                } else {
                    assert(take[first.len() + second.index_of(x)] == x);
                }
            }
            assert forall|w: Seq<char>| w != me implies #[trigger] kept(s, w) <= kept(s, v) by {
                assert(load(t, w) == kept(s, w));
                assert(yields(t, w, v));
            }
            if distinct {
                lemma_picked_keys_differ(s, held_row);
                assert forall|i: int, j: int|
                    0 <= i < first.len() && 0 <= j < second.len() implies first[i] != second[j] by {
                    if first[i] == second[j] {
                        assert(avail.contains(first[i]));
                        assert(held.contains(second[j]));
                        let a = choose|a: int|
                            0 <= a < s.len() && is_left_to(#[trigger] s[a], me) && s[a].lease_key@
                                == first[i];
                        let b = choose|b: int|
                            0 <= b < s.len() && is_kept_by(#[trigger] s[b], v) && s[b].lease_key@
                                == second[j];
                        assert(a != b);
                        assert(s[a].lease_key@ == s[b].lease_key@);
                    }
                }
            }
            assert forall|i: int| left(s, me) <= i < take.len() implies is_key_kept(s, v, #[trigger] take[i]) by {
                assert(take[i] == second[i - first.len()]);
                assert(held.contains(take[i]));
            }
            assert forall|i: int, j: int|
                left(s, me) <= i < take.len() && 0 <= j < s.len() && is_kept_by(#[trigger] s[j], v)
                    && !take.contains(s[j].lease_key@) implies !text::lex_less(
                s[j].lease_key@,
                #[trigger] take[i],
            ) by {
                assert(take[i] == second[i - first.len()]);
                assert(held.contains(s[j].lease_key@));
            }
            assert forall|i: int, j: int| left(s, me) <= i < j < take.len() implies !text::lex_less(
                #[trigger] take[j],
                #[trigger] take[i],
            ) by {
                assert(take[i] == second[i - first.len()] && take[j] == second[j - first.len()]);
            }
            assert(relieves(s, me, take, share, v));
        }
        assert forall|i: int| 0 <= i < take.len() && i < left(s, me) implies is_key_left(s, me, #[trigger] take[i]) by {
            assert(take[i] == first[i]);
            assert(avail.contains(take[i]));
        }
    }
}

} // verus!
