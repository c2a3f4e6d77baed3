//! Describing a stream page by page: the whole of it, or the children of one
//! shard.

use vstd::prelude::*;

use crate::collections::clone_optional;
use crate::collections;
use crate::leader::{ShardMeta, ShardNode};
use crate::leader;
use crate::source::graph::{build_shard_graph, child_metas, page_shards};
use crate::source::graph::{DdbShard, DescribedModel, RawShard};
use crate::source::graph;

verus! {

/// One page of a stream description.
#[derive(Clone, Debug)]
pub struct StreamPage {
    pub shards: Vec<RawShard>,
    /// The last shard of the page, if more pages follow.
    pub last_evaluated: Option<String>,
}

/// What to ask the service for.
#[derive(Clone, Debug)]
pub struct DescribeRequest {
    /// Describe only the children of this shard.
    pub children_of: Option<String>,
    /// Describe the shards behind this one.
    pub start_after: Option<String>,
}

/// What to do next.
pub enum DescribeAction {
    Ask(DescribeRequest),
    Finish(Vec<ShardMeta>),
}

/// What to do next, with text in place of strings.
pub enum DescribeActionModel {
    /// Ask for the children of a shard or for all, behind a shard.
    Ask(Option<Seq<char>>, Option<Seq<char>>),
    Finish(Seq<ShardNode>),
}

impl View for DescribeAction {
    type V = DescribeActionModel;

    open spec fn view(&self) -> DescribeActionModel {
        match self {
            DescribeAction::Ask(r) => DescribeActionModel::Ask(
                collections::optional_text(r.children_of),
                collections::optional_text(r.start_after),
            ),
            DescribeAction::Finish(g) => DescribeActionModel::Finish(leader::nodes(g@)),
        }
    }
}

/// A description under way: whose children are wanted, and the shards so far.
pub struct Description {
    children_of: Option<String>,
    shards: Vec<DdbShard>,
}

/// The state of a description.
pub struct DescriptionModel {
    pub children_of: Option<Seq<char>>,
    pub shards: Seq<DescribedModel>,
}

impl View for Description {
    type V = DescriptionModel;

    closed spec fn view(&self) -> DescriptionModel {
        DescriptionModel {
            children_of: collections::optional_text(self.children_of),
            shards: graph::page_model(self.shards@),
        }
    }
}

/// What a description amounts to. A stream as a whole is a graph, in which
/// parents that are not described were trimmed; children keep their parent,
/// which a description of children leaves out.
pub open spec fn described(m: DescriptionModel) -> Seq<ShardNode> {
    match m.children_of {
        None => graph::graph_of(m.shards),
        Some(_) => graph::child_nodes(m.shards),
    }
}

/// The description with a page more.
pub open spec fn with_page(m: DescriptionModel, page: StreamPage) -> DescriptionModel {
    DescriptionModel { shards: m.shards + graph::named_shards(page.shards@), ..m }
}

/// What an answer leads to: the next page as long as there is one, the result
/// otherwise. An answer without a description ends it.
pub open spec fn describe_step(
    m: DescriptionModel,
    page: Option<StreamPage>,
) -> (DescriptionModel, DescribeActionModel) {
    let done = DescriptionModel { shards: Seq::empty(), ..m };
    match page {
        None => (done, DescribeActionModel::Finish(described(m))),
        Some(p) => {
            let next = with_page(m, p);
            match p.last_evaluated {
                Some(id) => (next, DescribeActionModel::Ask(m.children_of, Some(id@))),
                None => (done, DescribeActionModel::Finish(described(next))),
            }
        },
    }
}

impl Description {
    /// Describe the whole stream.
    pub fn describe_shards() -> (r: (Description, DescribeAction))
        ensures
            r.0@ == (DescriptionModel { children_of: None, shards: Seq::empty() }),
            r.1@ == DescribeActionModel::Ask(None, None),
    {
        let d = Description { children_of: None, shards: Vec::new() };
        assert(d@.shards =~= Seq::empty());
        (d, DescribeAction::Ask(DescribeRequest { children_of: None, start_after: None }))
    }

    /// Describe only the children of `parent`.
    pub fn describe_child_shards(parent: &str) -> (r: (Description, DescribeAction))
        ensures
            r.0@ == (DescriptionModel { children_of: Some(parent@), shards: Seq::empty() }),
            r.1@ == DescribeActionModel::Ask(Some(parent@), None),
    {
        let d = Description { children_of: Some(parent.to_owned()), shards: Vec::new() };
        assert(d@.shards =~= Seq::empty());
        (
            d,
            DescribeAction::Ask(
                DescribeRequest { children_of: Some(parent.to_owned()), start_after: None },
            ),
        )
    }

    /// Take an answer; `None` if the service described nothing.
    pub fn step(&mut self, page: Option<StreamPage>) -> (a: DescribeAction)
        ensures
            (final(self)@, a@) == describe_step(old(self)@, page),
    {
        let ghost before = self@;
        if let Some(p) = &page {
            let mut named = page_shards(&p.shards);
            let ghost s = self.shards@;
            let ghost n = named@;
            self.shards.append(&mut named);
            assert(graph::page_model(self.shards@) =~= graph::page_model(s) + graph::page_model(n));
            assert(self@ == with_page(before, *p));
            if let Some(id) = clone_optional(&p.last_evaluated) {
                return DescribeAction::Ask(
                    DescribeRequest {
                        children_of: clone_optional(&self.children_of),
                        start_after: Some(id),
                    },
                );
            }
        }
        let ghost all = self@;
        let mut shards: Vec<DdbShard> = Vec::new();
        std::mem::swap(&mut shards, &mut self.shards);
        assert(self@.shards =~= Seq::empty());
        let metas = if self.children_of.is_none() {
            let ghost v = shards;
            let pages = vec![shards];
            proof {
                assert(pages@ =~= seq![v]);
                assert(pages@.drop_last() =~= Seq::empty());
                reveal_with_fuel(graph::all_described, 2);
                assert(graph::all_described(pages@) =~= graph::page_model(v@));
            }
            build_shard_graph(pages)
        } else {
            child_metas(&shards)
        };
        DescribeAction::Finish(metas)
    }
}

/// A description after some pages, all of which were followed by another.
pub open spec fn after_pages(m: DescriptionModel, pages: Seq<StreamPage>) -> DescriptionModel
    decreases pages.len(),
{
    if pages.len() == 0 {
        m
    } else {
        describe_step(after_pages(m, pages.drop_last()), Some(pages.last())).0
    }
}

/// The shards of some pages, in order.
pub open spec fn shards_of(pages: Seq<StreamPage>) -> Seq<DescribedModel>
    decreases pages.len(),
{
    if pages.len() == 0 {
        Seq::empty()
    } else {
        shards_of(pages.drop_last()) + graph::named_shards(pages.last().shards@)
    }
}

/// However the service cuts a stream into pages, none of its shards is missed:
/// the result is that of one page with all shards.
pub proof fn law_paging_misses_no_shard(
    m: DescriptionModel,
    pages: Seq<StreamPage>,
    last: StreamPage,
)
    requires
        m.shards.len() == 0,
        forall|i: int| 0 <= i < pages.len() ==> (#[trigger] pages[i]).last_evaluated is Some,
        last.last_evaluated is None,
    ensures
        describe_step(after_pages(m, pages), Some(last)).1 == DescribeActionModel::Finish(
            described(DescriptionModel { shards: shards_of(pages.push(last)), ..m }),
        ),
{
    lemma_after_pages(m, pages);
    assert(pages.push(last).drop_last() =~= pages);
    assert(m.shards + shards_of(pages) =~= shards_of(pages));
}

proof fn lemma_after_pages(m: DescriptionModel, pages: Seq<StreamPage>)
    requires
        forall|i: int| 0 <= i < pages.len() ==> (#[trigger] pages[i]).last_evaluated is Some,
    ensures
        after_pages(m, pages) == (DescriptionModel {
            shards: m.shards + shards_of(pages),
            ..m
        }),
    decreases pages.len(),
{
    if pages.len() == 0 {
        assert(m.shards + shards_of(pages) =~= m.shards);
    } else {
        assert(pages[pages.len() - 1].last_evaluated is Some);
        lemma_after_pages(m, pages.drop_last());
        assert(m.shards + shards_of(pages) =~= (m.shards + shards_of(pages.drop_last()))
            + graph::named_shards(pages.last().shards@));
    }
}

/// A page that is followed by another has that one asked for, behind the shard
/// where it ends, and of the same parent; the last page, or none, ends it.
pub proof fn law_pages_are_asked_for_one_after_the_other(m: DescriptionModel, page: StreamPage)
    ensures
        page.last_evaluated is Some ==> describe_step(m, Some(page)).1 == DescribeActionModel::Ask(
            m.children_of,
            Some(page.last_evaluated->0@),
        ),
        page.last_evaluated is Some ==> describe_step(m, Some(page)).0.children_of == m.children_of,
        page.last_evaluated is None ==> describe_step(m, Some(page)).1 is Finish,
        describe_step(m, None).1 is Finish,
{
}

/// The description of a stream has each shard once, and a shard waits only for
/// parents that are in it; that of the children of a shard has each of them, with
/// its parent, though the parent is not in it.
pub proof fn law_a_description_has_every_shard(m: DescriptionModel, i: int)
    requires
        0 <= i < m.shards.len(),
    ensures
        m.children_of is Some ==> described(m).len() == m.shards.len() && described(m)[i].id
            == m.shards[i].id && described(m)[i].parents == (match m.shards[i].parent {
            Some(p) => seq![p],
            None => Seq::empty(),
        }),
        m.children_of is None ==> {
            &&& exists|j: int|
                0 <= j < described(m).len() && (#[trigger] described(m)[j]).id == m.shards[i].id
            &&& forall|a: int, b: int|
                0 <= a < b < described(m).len() ==> (#[trigger] described(m)[a]).id != (
                #[trigger] described(m)[b]).id
            &&& forall|a: int, k: int|
                0 <= a < described(m).len() && 0 <= k < described(m)[a].parents.len() ==> exists|
                    j: int,
                |
                    0 <= j < described(m).len() && (#[trigger] described(m)[j]).id == (
                    #[trigger] described(m)[a].parents[k])
        },
{
    if m.children_of is None {
        graph::law_graph_has_every_shard_once(m.shards);
        assert(exists|j: int|
            0 <= j < graph::graph_of(m.shards).len() && (#[trigger] graph::graph_of(m.shards)[j]).id
                == m.shards[i].id);
        assert forall|a: int, k: int|
            0 <= a < described(m).len() && 0 <= k < described(m)[a].parents.len() implies exists|
            j: int,
        |
            0 <= j < described(m).len() && (#[trigger] described(m)[j]).id == (
            #[trigger] described(m)[a].parents[k]) by {
            graph::law_no_shard_waits_for_a_trimmed_parent(m.shards, a, k);
        }
    }
}

/// The actions of a description are what they stand for.
pub proof fn law_actions_are_as_they_stand(a: DescribeAction)
    ensures
        match a {
            DescribeAction::Ask(r) => a@ is Ask && a@->Ask_0 == (match r.children_of {
                Some(p) => Some(p@),
                None => None,
            }) && a@->Ask_1 == (match r.start_after {
                Some(s) => Some(s@),
                None => None,
            }),
            DescribeAction::Finish(g) => a@ == DescribeActionModel::Finish(leader::nodes(g@)),
        },
{
}

} // verus!
