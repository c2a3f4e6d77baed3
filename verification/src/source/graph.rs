//! From the pages of a stream description to the shard graph.

use vstd::prelude::*;

use crate::collections::{clone_optional, StringSet};
use crate::collections;
use crate::leader::{ShardMeta, ShardNode};
use crate::leader;

verus! {

/// A shard as a stream describes it: with one parent at most.
#[derive(Clone, Debug, PartialEq, Eq)]
pub struct DdbShard {
    pub shard_id: String,
    pub parent_shard_id: Option<String>,
}

/// A described shard, with text in place of strings.
pub struct DescribedModel {
    pub id: Seq<char>,
    pub parent: Option<Seq<char>>,
}

impl View for DdbShard {
    type V = DescribedModel;

    open spec fn view(&self) -> DescribedModel {
        DescribedModel {
            id: self.shard_id@,
            parent: collections::optional_text(self.parent_shard_id),
        }
    }
}

impl DdbShard {
    /// A shard with its parent.
    pub fn new(shard_id: &str, parent: Option<&str>) -> (s: Self)
        ensures
            s@ == (DescribedModel {
                id: shard_id@,
                parent: match parent {
                    Some(p) => Some(p@),
                    None => None,
                },
            }),
    {
        DdbShard {
            shard_id: shard_id.to_owned(),
            parent_shard_id: match parent {
                Some(p) => Some(p.to_owned()),
                None => None,
            },
        }
    }
}

/// The shards of one page.
pub open spec fn page_model(s: Seq<DdbShard>) -> Seq<DescribedModel> {
    s.map_values(|x: DdbShard| x@)
}

/// The shards of all pages, in order.
pub open spec fn all_described(pages: Seq<Vec<DdbShard>>) -> Seq<DescribedModel>
    decreases pages.len(),
{
    if pages.len() == 0 {
        Seq::empty()
    } else {
        all_described(pages.drop_last()) + page_model(pages.last()@)
    }
}

/// The ids of some shards.
pub open spec fn described_ids(s: Seq<DescribedModel>) -> Seq<Seq<char>> {
    s.map_values(|x: DescribedModel| x.id)
}

/// The shards without those whose id occurred before.
pub open spec fn first_seen(s: Seq<DescribedModel>) -> Seq<DescribedModel>
    decreases s.len(),
{
    if s.len() == 0 {
        Seq::empty()
    } else {
        let before = first_seen(s.drop_last());
        if described_ids(before).contains(s.last().id) {
            before
        } else {
            before.push(s.last())
        }
    }
}

/// The node of a shard. A parent that is not described any more was trimmed:
/// it is left out, so that the child does not wait for it for ever.
pub open spec fn node_of(s: DescribedModel, present: Seq<Seq<char>>) -> ShardNode {
    ShardNode {
        id: s.id,
        parents: match s.parent {
            Some(p) => if present.contains(p) {
                seq![p]
            } else {
                Seq::empty()
            },
            None => Seq::empty(),
        },
    }
}

/// The shard graph of a described stream.
pub open spec fn graph_of(s: Seq<DescribedModel>) -> Seq<ShardNode> {
    let shards = first_seen(s);
    shards.map_values(|x: DescribedModel| node_of(x, described_ids(shards)))
}

fn copy_shard(s: &DdbShard) -> (r: DdbShard)
    ensures
        r@ == s@,
{
    DdbShard {
        shard_id: s.shard_id.clone(),
        parent_shard_id: clone_optional(&s.parent_shard_id),
    }
}

/// Build the shard graph from the pages of a stream description.
///
/// A shard may occur on several pages; the order is that of first sight.
pub fn build_shard_graph(pages: Vec<Vec<DdbShard>>) -> (r: Vec<ShardMeta>)
    ensures
        leader::nodes(r@) == graph_of(all_described(pages@)),
{
    let mut seen = StringSet::new();
    let mut shards: Vec<DdbShard> = Vec::new();
    let ghost mut all: Seq<DescribedModel> = Seq::empty();
    let mut p: usize = 0;
    assert(all_described(pages@.take(0)) =~= all);
    assert(page_model(shards@) =~= first_seen(all));
    assert(seen.order() =~= described_ids(page_model(shards@)));
    while p < pages.len()
        invariant
            p <= pages.len(),
            all == all_described(pages@.take(p as int)),
            page_model(shards@) == first_seen(all),
            seen.order() == described_ids(page_model(shards@)),
        decreases pages.len() - p,
    {
        let page = &pages[p];
        let ghost start = all;
        let mut i: usize = 0;
        assert(start + page_model(page@).take(0) =~= start);
        while i < page.len()
            invariant
                i <= page.len(),
                all == start + page_model(page@).take(i as int),
                page_model(shards@) == first_seen(all),
                seen.order() == described_ids(page_model(shards@)),
            decreases page.len() - i,
        {
            let ghost before = shards@;
            let ghost last = page_model(page@)[i as int];
            assert(last == page@[i as int]@);
            proof {
                let next = start + page_model(page@).take(i + 1);
                assert(next =~= all.push(last));
                assert(next.drop_last() =~= all);
                all = next;
            }
            let added = seen.insert(page[i].shard_id.clone());
            if added {
                shards.push(copy_shard(&page[i]));
                assert(page_model(shards@) =~= page_model(before).push(last));
                assert(described_ids(page_model(shards@)) =~= described_ids(
                    page_model(before),
                ).push(last.id));
            }
            i = i + 1;
        }
        proof {
            assert(page_model(page@).take(i as int) =~= page_model(page@));
            assert(pages@.take(p + 1).drop_last() =~= pages@.take(p as int));
        }
        p = p + 1;
    }
    assert(pages@.take(p as int) =~= pages@);
    let ghost models = page_model(shards@);
    let ghost image = |x: DescribedModel| node_of(x, described_ids(models));
    let mut r: Vec<ShardMeta> = Vec::new();
    let mut i: usize = 0;
    assert(leader::nodes(r@) =~= models.take(0).map_values(image));
    while i < shards.len()
        invariant
            i <= shards.len(),
            models == page_model(shards@),
            image == (|x: DescribedModel| node_of(x, described_ids(models))),
            seen.order() == described_ids(models),
            leader::nodes(r@) == models.take(i as int).map_values(image),
        decreases shards.len() - i,
    {
        proof {
            collections::lemma_map_step(models, i as int, image);
        }
        assert(models[i as int] == shards@[i as int]@);
        let mut parents: Vec<String> = Vec::new();
        assert(collections::texts(parents@) =~= Seq::empty());
        if let Some(parent) = clone_optional(&shards[i].parent_shard_id) {
            if seen.contains(parent.as_str()) {
                parents.push(parent);
                assert(collections::texts(parents@) =~= seq![parent@]);
            }
        }
        let meta = ShardMeta { id: shards[i].shard_id.clone(), parents };
        let ghost before = r@;
        r.push(meta);
        assert(leader::nodes(r@) =~= leader::nodes(before).push(image(models[i as int])));
        i = i + 1;
    }
    assert(models.take(i as int) =~= models);
    r
}

/// A shard as it comes from the service: its id may be missing.
#[derive(Clone, Debug)]
pub struct RawShard {
    pub shard_id: Option<String>,
    pub parent_shard_id: Option<String>,
}

/// The described shard that a raw one stands for; `None` if it has no id.
pub open spec fn named(r: RawShard) -> Option<DescribedModel> {
    match r.shard_id {
        Some(id) => if id@.len() > 0 {
            Some(
                DescribedModel { id: id@, parent: collections::optional_text(r.parent_shard_id) },
            )
        } else {
            None
        },
        None => None,
    }
}

/// The shards of a page that have an id.
pub open spec fn named_shards(s: Seq<RawShard>) -> Seq<DescribedModel>
    decreases s.len(),
{
    if s.len() == 0 {
        Seq::empty()
    } else {
        match named(s.last()) {
            Some(m) => named_shards(s.drop_last()).push(m),
            None => named_shards(s.drop_last()),
        }
    }
}

/// Take the shards of a page that have an id.
pub fn page_shards(raw: &Vec<RawShard>) -> (r: Vec<DdbShard>)
    ensures
        page_model(r@) == named_shards(raw@),
{
    let mut r: Vec<DdbShard> = Vec::new();
    let mut i: usize = 0;
    assert(page_model(r@) =~= named_shards(raw@.take(0)));
    while i < raw.len()
        invariant
            i <= raw.len(),
            page_model(r@) == named_shards(raw@.take(i as int)),
        decreases raw.len() - i,
    {
        assert(raw@.take(i + 1).drop_last() =~= raw@.take(i as int));
        if let Some(id) = clone_optional(&raw[i].shard_id) {
            if id.as_str().unicode_len() > 0 {
                let s = DdbShard {
                    shard_id: id,
                    parent_shard_id: clone_optional(&raw[i].parent_shard_id),
                };
                let ghost before = r@;
                r.push(s);
                assert(page_model(r@) =~= page_model(before).push(s@));
            }
        }
        i = i + 1;
    }
    assert(raw@.take(i as int) =~= raw@);
    r
}

/// The nodes of children that were asked for: each keeps its parent, although
/// the parent itself is not among them.
pub open spec fn child_nodes(s: Seq<DescribedModel>) -> Seq<ShardNode> {
    s.map_values(
        |x: DescribedModel|
            ShardNode {
                id: x.id,
                parents: match x.parent {
                    Some(p) => seq![p],
                    None => Seq::empty(),
                },
            },
    )
}

/// The children that a stream describes.
pub fn child_metas(shards: &Vec<DdbShard>) -> (r: Vec<ShardMeta>)
    ensures
        leader::nodes(r@) == child_nodes(page_model(shards@)),
{
    let ghost models = page_model(shards@);
    let ghost image = |x: DescribedModel|
        ShardNode {
            id: x.id,
            parents: match x.parent {
                Some(p) => seq![p],
                None => Seq::empty(),
            },
        };
    let mut r: Vec<ShardMeta> = Vec::new();
    let mut i: usize = 0;
    assert(leader::nodes(r@) =~= models.take(0).map_values(image));
    while i < shards.len()
        invariant
            i <= shards.len(),
            models == page_model(shards@),
            image == (|x: DescribedModel|
                ShardNode {
                    id: x.id,
                    parents: match x.parent {
                        Some(p) => seq![p],
                        None => Seq::empty(),
                    },
                }),
            leader::nodes(r@) == models.take(i as int).map_values(image),
        decreases shards.len() - i,
    {
        proof {
            collections::lemma_map_step(models, i as int, image);
        }
        assert(models[i as int] == shards@[i as int]@);
        let mut parents: Vec<String> = Vec::new();
        assert(collections::texts(parents@) =~= Seq::empty());
        if let Some(parent) = clone_optional(&shards[i].parent_shard_id) {
            parents.push(parent);
            assert(collections::texts(parents@) =~= seq![parent@]);
        }
        let meta = ShardMeta { id: shards[i].shard_id.clone(), parents };
        let ghost before = r@;
        r.push(meta);
        assert(leader::nodes(r@) =~= leader::nodes(before).push(image(models[i as int])));
        i = i + 1;
    }
    assert(models.take(i as int) =~= models);
    r
}

proof fn lemma_first_seen(s: Seq<DescribedModel>)
    ensures
        described_ids(first_seen(s)).no_duplicates(),
        forall|i: int|
            0 <= i < s.len() ==> described_ids(first_seen(s)).contains((#[trigger] s[i]).id),
        forall|i: int| 0 <= i < first_seen(s).len() ==> s.contains(#[trigger] first_seen(s)[i]),
    decreases s.len(),
{
    if s.len() > 0 {
        let rest = s.drop_last();
        lemma_first_seen(rest);
        let before = first_seen(rest);
        let after = first_seen(s);
        if !described_ids(before).contains(s.last().id) {
            assert(described_ids(after) =~= described_ids(before).push(s.last().id));
            assert(described_ids(after)[before.len() as int] == s.last().id);
        }
        assert forall|i: int| 0 <= i < s.len() implies described_ids(after).contains(
            (#[trigger] s[i]).id,
        ) by {
            if i < rest.len() {
                assert(rest[i] == s[i]);
                let j = described_ids(before).index_of(s[i].id);
                assert(described_ids(after)[j] == s[i].id);
            }
        }
        assert forall|i: int| 0 <= i < after.len() implies s.contains(#[trigger] after[i]) by {
            if i < before.len() {
                assert(after[i] == before[i]);
                let j = rest.index_of(before[i]);
                assert(s[j] == after[i]);
            } else {
                assert(s[s.len() - 1] == after[i]);
            }
        }
    }
}

/// The graph has every described shard once.
pub proof fn law_graph_has_every_shard_once(s: Seq<DescribedModel>)
    ensures
        forall|i: int, j: int|
            0 <= i < j < graph_of(s).len() ==> (#[trigger] graph_of(s)[i]).id != (
            #[trigger] graph_of(s)[j]).id,
        forall|i: int|
            0 <= i < s.len() ==> exists|j: int|
                0 <= j < graph_of(s).len() && (#[trigger] graph_of(s)[j]).id == (
                #[trigger] s[i]).id,
{
    lemma_first_seen(s);
    let f = first_seen(s);
    assert forall|i: int, j: int| 0 <= i < j < graph_of(s).len() implies (
    #[trigger] graph_of(s)[i]).id != (#[trigger] graph_of(s)[j]).id by {
        assert(described_ids(f)[i] != described_ids(f)[j]);
    }
    assert forall|i: int| 0 <= i < s.len() implies exists|j: int|
        0 <= j < graph_of(s).len() && (#[trigger] graph_of(s)[j]).id == (#[trigger] s[i]).id by {
        let j = described_ids(f).index_of(s[i].id);
        assert(graph_of(s)[j].id == s[i].id);
    }
}

/// A node waits only for parents that are described themselves: no shard is
/// blocked by one that was trimmed.
pub proof fn law_no_shard_waits_for_a_trimmed_parent(s: Seq<DescribedModel>, i: int, k: int)
    requires
        0 <= i < graph_of(s).len(),
        0 <= k < graph_of(s)[i].parents.len(),
    ensures
        exists|j: int|
            0 <= j < graph_of(s).len() && (#[trigger] graph_of(s)[j]).id == graph_of(
                s,
            )[i].parents[k],
{
    let f = first_seen(s);
    let p = graph_of(s)[i].parents[k];
    assert(described_ids(f).contains(p));
    let j = described_ids(f).index_of(p);
    assert(graph_of(s)[j].id == p);
}

/// `id` is that of a shard on one of the pages.
pub open spec fn is_on_a_page(pages: Seq<Vec<DdbShard>>, id: Seq<char>) -> bool {
    exists|p: int, i: int|
        0 <= p < pages.len() && 0 <= i < pages[p]@.len() && (#[trigger] pages[p]@[i]).shard_id@ == id
}

/// The shard `i` of page `p` is the first of its id.
pub open spec fn is_first_sight(pages: Seq<Vec<DdbShard>>, p: int, i: int) -> bool {
    &&& 0 <= p < pages.len()
    &&& 0 <= i < pages[p]@.len()
    &&& forall|q: int, j: int|
        0 <= q < pages.len() && 0 <= j < pages[q]@.len() && (q < p || (q == p && j < i)) ==> (
        #[trigger] pages[q]@[j]).shard_id@ != pages[p]@[i].shard_id@
}

/// The shards on the first `p` pages.
pub open spec fn shards_on(pages: Seq<Vec<DdbShard>>, p: int) -> int
    decreases p,
{
    if p <= 0 {
        0
    } else {
        shards_on(pages, p - 1) + pages[p - 1]@.len()
    }
}

proof fn lemma_flat_at(pages: Seq<Vec<DdbShard>>, n: int, p: int, i: int)
    requires
        0 <= n <= pages.len(),
    ensures
        all_described(pages.take(n)).len() == shards_on(pages, n),
        0 <= p < n && 0 <= i < pages[p]@.len() ==> 0 <= shards_on(pages, p) + i < shards_on(pages, n)
            && all_described(pages.take(n))[shards_on(pages, p) + i] == pages[p]@[i]@,
    decreases n,
{
    if n > 0 {
        lemma_flat_at(pages, n - 1, p, i);
        lemma_pages_add_up(pages, 0, n - 1);
        assert(pages.take(n).drop_last() =~= pages.take(n - 1));
        assert(pages.take(n).last() == pages[n - 1]);
    }
}

proof fn lemma_flat(pages: Seq<Vec<DdbShard>>, p: int, i: int)
    requires
        0 <= p < pages.len(),
        0 <= i < pages[p]@.len(),
    ensures
        all_described(pages).len() == shards_on(pages, pages.len() as int),
        0 <= shards_on(pages, p) + i < all_described(pages).len(),
        all_described(pages)[shards_on(pages, p) + i] == pages[p]@[i]@,
{
    lemma_flat_at(pages, pages.len() as int, p, i);
    assert(pages.take(pages.len() as int) =~= pages);
}

proof fn lemma_pages_add_up(pages: Seq<Vec<DdbShard>>, p: int, q: int)
    requires
        0 <= p <= q <= pages.len(),
    ensures
        0 <= shards_on(pages, p) <= shards_on(pages, q),
        p < q ==> shards_on(pages, p) + pages[p]@.len() <= shards_on(pages, q),
    decreases q,
{
    if p < q {
        lemma_pages_add_up(pages, p, q - 1);
    } else if p > 0 {
        lemma_pages_add_up(pages, p - 1, q - 1);
    }
}

/// Every described shard stands on a page.
proof fn lemma_unflat(pages: Seq<Vec<DdbShard>>, n: int, k: int) -> (at: (int, int))
    requires
        0 <= n <= pages.len(),
        0 <= k < shards_on(pages, n),
    ensures
        0 <= at.0 < n,
        0 <= at.1 < pages[at.0]@.len(),
        k == shards_on(pages, at.0) + at.1,
    decreases n,
{
    if k >= shards_on(pages, n - 1) {
        (n - 1, k - shards_on(pages, n - 1))
    } else {
        lemma_unflat(pages, n - 1, k)
    }
}

/// The first shard of an id is kept, behind those that are kept before it.
proof fn lemma_first_is_kept(s: Seq<DescribedModel>, n: int, k: int)
    requires
        0 <= k < n <= s.len(),
        forall|j: int| 0 <= j < k ==> (#[trigger] s[j]).id != s[k].id,
    ensures
        first_seen(s.take(k)).len() < first_seen(s.take(n)).len(),
        first_seen(s.take(n))[first_seen(s.take(k)).len() as int] == s[k],
    decreases n,
{
    assert(s.take(n).drop_last() =~= s.take(n - 1));
    assert(s.take(n).last() == s[n - 1]);
    if k < n - 1 {
        lemma_first_is_kept(s, n - 1, k);
    } else {
        let before = s.take(k);
        lemma_first_seen(before);
        if described_ids(first_seen(before)).contains(s[k].id) {
            let f = first_seen(before);
            let j = described_ids(f).index_of(s[k].id);
            assert(before.contains(f[j]));
            let m = before.index_of(f[j]);
            assert(s[m].id == s[k].id);
        }
    }
}

/// Every shard is in the graph once, in the order of first sight over the pages
/// of the description: with the parent that it was first seen with, if the
/// description has that one too, and with none otherwise. Nothing else is there.
pub proof fn law_the_graph_is_what_the_pages_describe(
    pages: Seq<Vec<DdbShard>>,
    p: int,
    i: int,
    q: int,
    j: int,
    n: int,
)
    ensures
        is_first_sight(pages, p, i) ==> exists|a: int|
            0 <= a < graph_of(all_described(pages)).len() && {
                let node = #[trigger] graph_of(all_described(pages))[a];
                let parent = pages[p]@[i].parent_shard_id;
                &&& node.id == pages[p]@[i].shard_id@
                &&& node.parents == (if parent is Some && is_on_a_page(pages, parent->0@) {
                    seq![parent->0@]
                } else {
                    Seq::empty()
                })
            },
        is_first_sight(pages, p, i) && is_first_sight(pages, q, j) && (p < q || (p == q && i < j))
            ==> exists|a: int, b: int|
            0 <= a < b < graph_of(all_described(pages)).len() && (#[trigger] graph_of(
                all_described(pages),
            )[a]).id == pages[p]@[i].shard_id@ && (#[trigger] graph_of(all_described(pages))[b]).id
                == pages[q]@[j].shard_id@,
        0 <= n < graph_of(all_described(pages)).len() ==> is_on_a_page(
            pages,
            graph_of(all_described(pages))[n].id,
        ),
        forall|a: int, b: int|
            0 <= a < b < graph_of(all_described(pages)).len() ==> (#[trigger] graph_of(
                all_described(pages),
            )[a]).id != (#[trigger] graph_of(all_described(pages))[b]).id,
{
    let s = all_described(pages);
    let f = first_seen(s);
    assert(s.take(s.len() as int) =~= s);
    lemma_first_seen(s);
    law_graph_has_every_shard_once(s);
    if is_first_sight(pages, p, i) {
        let k = lemma_first_sight(pages, p, i);
        let a = first_seen(s.take(k)).len() as int;
        assert(graph_of(s)[a] == node_of(f[a], described_ids(f)));
        let parent = pages[p]@[i].parent_shard_id;
        if parent is Some {
            let id = parent->0@;
            if is_on_a_page(pages, id) {
                let (x, y) = choose|x: int, y: int|
                    0 <= x < pages.len() && 0 <= y < pages[x]@.len() && (
                    #[trigger] pages[x]@[y]).shard_id@ == id;
                lemma_flat(pages, x, y);
                assert(described_ids(f).contains(s[shards_on(pages, x) + y].id));
            }
            if described_ids(f).contains(id) {
                let m = described_ids(f).index_of(id);
                lemma_kept_is_on_a_page(pages, m);
            }
        }
        assert(graph_of(s)[a].parents =~= (if parent is Some && is_on_a_page(pages, parent->0@) {
            seq![parent->0@]
        } else {
            Seq::empty()
        }));
        if is_first_sight(pages, q, j) && (p < q || (p == q && i < j)) {
            let l = lemma_first_sight(pages, q, j);
            let b = first_seen(s.take(l)).len() as int;
            lemma_pages_add_up(pages, p, q);
            assert(k < l);
            lemma_first_is_kept(s, l, k);
            assert(graph_of(s)[b] == node_of(f[b], described_ids(f)));
            assert(a < b);
        }
    }
    if 0 <= n < graph_of(s).len() {
        lemma_kept_is_on_a_page(pages, n);
    }
}

proof fn lemma_kept_is_on_a_page(pages: Seq<Vec<DdbShard>>, m: int)
    requires
        0 <= m < first_seen(all_described(pages)).len(),
    ensures
        is_on_a_page(pages, first_seen(all_described(pages))[m].id),
{
    let s = all_described(pages);
    let f = first_seen(s);
    let count = pages.len() as int;
    lemma_flat_at(pages, count, 0, 0);
    assert(pages.take(count) =~= pages);
    lemma_first_seen(s);
    assert(s.contains(f[m]));
    let k = s.index_of(f[m]);
    let (x, y) = lemma_unflat(pages, count, k);
    lemma_flat(pages, x, y);
    assert(pages[x]@[y].shard_id@ == f[m].id);
}

proof fn lemma_first_sight(pages: Seq<Vec<DdbShard>>, p: int, i: int) -> (k: int)
    requires
        is_first_sight(pages, p, i),
    ensures
        k == shards_on(pages, p) + i,
        0 <= k < all_described(pages).len(),
        all_described(pages)[k] == pages[p]@[i]@,
        first_seen(all_described(pages).take(k)).len() < first_seen(all_described(pages)).len(),
        first_seen(all_described(pages))[first_seen(all_described(pages).take(k)).len() as int]
            == pages[p]@[i]@,
        forall|m: int|
            0 <= m < k ==> (#[trigger] all_described(pages)[m]).id != pages[p]@[i].shard_id@,
{
    let s = all_described(pages);
    let count = pages.len() as int;
    let k = shards_on(pages, p) + i;
    lemma_flat(pages, p, i);
    assert(s.take(s.len() as int) =~= s);
    assert forall|m: int| 0 <= m < k implies (#[trigger] s[m]).id != pages[p]@[i].shard_id@ by {
        let (x, y) = lemma_unflat(pages, count, m);
        lemma_flat(pages, x, y);
        if p <= x {
            lemma_pages_add_up(pages, p, x);
        }
        assert(pages[x]@[y].shard_id@ != pages[p]@[i].shard_id@);
    }
    lemma_first_is_kept(s, s.len() as int, k);
    k
}

/// Every shard of a page that has an id is taken, in order, with its id and
/// parent; one without an id, or with an empty one, is not.
pub proof fn law_every_named_shard_is_taken(raw: Seq<RawShard>, i: int)
    ensures
        ({
            let has_id = |r: RawShard| r.shard_id is Some && r.shard_id->0@.len() > 0;
            let out = named_shards(raw);
            let at = collections::matching_before(raw, has_id, i) as int;
            &&& out.len() == collections::matching_before(raw, has_id, raw.len() as int)
            &&& 0 <= i < raw.len() && has_id(raw[i]) ==> {
                &&& at < out.len()
                &&& out[at].id == raw[i].shard_id->0@
                &&& out[at].parent is Some == raw[i].parent_shard_id is Some
                &&& out[at].parent is Some ==> out[at].parent->0 == raw[i].parent_shard_id->0@
            }
        }),
    decreases raw.len(),
{
    if raw.len() > 0 {
        let has_id = |r: RawShard| r.shard_id is Some && r.shard_id->0@.len() > 0;
        let n = raw.len() - 1;
        let rest = raw.drop_last();
        law_every_named_shard_is_taken(rest, i);
        lemma_same_matches(rest, raw, has_id, n);
        if 0 <= i < n {
            lemma_same_matches(rest, raw, has_id, i);
            collections::lemma_matching_grows(raw, has_id, i, n);
        }
    }
}

proof fn lemma_same_matches(rest: Seq<RawShard>, raw: Seq<RawShard>, p: spec_fn(RawShard) -> bool, n: int)
    requires
        n <= rest.len() <= raw.len(),
        forall|k: int| 0 <= k < rest.len() ==> rest[k] == raw[k],
    ensures
        collections::matching_before(rest, p, n) == collections::matching_before(raw, p, n),
    decreases n,
{
    if n > 0 {
        lemma_same_matches(rest, raw, p, n - 1);
    }
}

/// Each child that was asked for keeps its id and its parent.
pub proof fn law_children_keep_their_parent(shards: Seq<DdbShard>, i: int)
    requires
        0 <= i < shards.len(),
    ensures
        child_nodes(page_model(shards)).len() == shards.len(),
        child_nodes(page_model(shards))[i].id == shards[i].shard_id@,
        shards[i].parent_shard_id is None ==> child_nodes(page_model(shards))[i].parents.len() == 0,
        shards[i].parent_shard_id is Some ==> child_nodes(page_model(shards))[i].parents
            == seq![shards[i].parent_shard_id->0@],
{
}

} // verus!
