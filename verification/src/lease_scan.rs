//! Scanning the lease table page by page.

use vstd::prelude::*;

use crate::lease_table::{Lease, LeaseModel};
use crate::lease_wire::item_to_lease;
use crate::lease_wire;
use crate::record::{AttrModel, Item};
use crate::record;

verus! {

/// One page of a scan.
#[derive(Debug)]
pub struct ScanPage {
    pub items: Vec<Item>,
    /// What addresses the last row of the page, if more pages follow.
    pub last_evaluated: Option<Item>,
}

/// What to do next.
#[derive(Debug)]
pub enum ScanAction {
    /// Ask for the rows behind the one that is addressed, or from the first on.
    Ask(Option<Item>),
    Finish(Vec<Lease>),
}

/// What to do next, with models in place of items and leases.
pub enum ScanActionModel {
    Ask(Option<Seq<(Seq<char>, AttrModel)>>),
    Finish(Seq<LeaseModel>),
}

/// The contents of an optional item.
pub open spec fn optional_item(i: Option<Item>) -> Option<Seq<(Seq<char>, AttrModel)>> {
    match i {
        Some(x) => Some(x@),
        None => None,
    }
}

/// Some leases, with text in place of strings.
pub open spec fn lease_models(s: Seq<Lease>) -> Seq<LeaseModel> {
    s.map_values(|l: Lease| l@)
}

impl View for ScanAction {
    type V = ScanActionModel;

    open spec fn view(&self) -> ScanActionModel {
        match self {
            ScanAction::Ask(i) => ScanActionModel::Ask(optional_item(*i)),
            ScanAction::Finish(l) => ScanActionModel::Finish(lease_models(l@)),
        }
    }
}

/// The leases that some rows stand for.
pub open spec fn leases_of(items: Seq<Item>) -> Seq<LeaseModel> {
    items.map_values(|i: Item| lease_wire::lease_of(record::attributes(i@)))
}

/// A scan under way: the leases so far.
pub struct TableScan {
    leases: Vec<Lease>,
}

impl View for TableScan {
    type V = Seq<LeaseModel>;

    closed spec fn view(&self) -> Seq<LeaseModel> {
        lease_models(self.leases@)
    }
}

/// What a page leads to: the next page as long as there is one, all leases
/// otherwise.
pub open spec fn scan_step(leases: Seq<LeaseModel>, page: ScanPage) -> (
    Seq<LeaseModel>,
    ScanActionModel,
) {
    let all = leases + leases_of(page.items@);
    match page.last_evaluated {
        Some(k) => (all, ScanActionModel::Ask(Some(k@))),
        None => (Seq::empty(), ScanActionModel::Finish(all)),
    }
}

impl TableScan {
    /// Scan every row of the table.
    pub fn list_all() -> (r: (TableScan, ScanAction))
        ensures
            r.0@ == Seq::<LeaseModel>::empty(),
            r.1@ == ScanActionModel::Ask(None),
    {
        let s = TableScan { leases: Vec::new() };
        assert(s@ =~= Seq::empty());
        (s, ScanAction::Ask(None))
    }

    /// Take a page.
    pub fn step(&mut self, page: ScanPage) -> (a: ScanAction)
        ensures
            (final(self)@, a@) == scan_step(old(self)@, page),
    {
        let ghost before = self@;
        let items = &page.items;
        let mut i: usize = 0;
        assert(self@ =~= before + leases_of(items@.take(0)));
        while i < items.len()
            invariant
                i <= items.len(),
                self@ == before + leases_of(items@.take(i as int)),
            decreases items.len() - i,
        {
            let ghost now = self.leases@;
            self.leases.push(item_to_lease(&items[i]));
            let ghost next = lease_wire::lease_of(record::attributes(items@[i as int]@));
            assert(lease_models(self.leases@) =~= lease_models(now).push(next));
            assert(leases_of(items@.take(i + 1)) =~= leases_of(items@.take(i as int)).push(next));
            assert(self@ =~= before + leases_of(items@.take(i + 1)));
            i = i + 1;
        }
        assert(items@.take(i as int) =~= items@);
        match page.last_evaluated {
            Some(k) => ScanAction::Ask(Some(k)),
            None => {
                let mut all: Vec<Lease> = Vec::new();
                std::mem::swap(&mut all, &mut self.leases);
                assert(self@ =~= Seq::empty());
                ScanAction::Finish(all)
            },
        }
    }
}

/// The leases so far after some pages.
pub open spec fn after_pages(pages: Seq<ScanPage>) -> Seq<LeaseModel>
    decreases pages.len(),
{
    if pages.len() == 0 {
        Seq::empty()
    } else {
        scan_step(after_pages(pages.drop_last()), pages.last()).0
    }
}

/// The rows of some pages, in order.
pub open spec fn rows_of(pages: Seq<ScanPage>) -> Seq<Item>
    decreases pages.len(),
{
    if pages.len() == 0 {
        Seq::empty()
    } else {
        rows_of(pages.drop_last()) + pages.last().items@
    }
}

/// However the table is cut into pages, a scan gives the leases of all rows, in
/// their order.
pub proof fn law_a_scan_misses_no_row(pages: Seq<ScanPage>, last: ScanPage)
    requires
        forall|i: int| 0 <= i < pages.len() ==> (#[trigger] pages[i]).last_evaluated is Some,
        last.last_evaluated is None,
    ensures
        scan_step(after_pages(pages), last).1 == ScanActionModel::Finish(
            leases_of(rows_of(pages.push(last))),
        ),
{
    lemma_after_pages(pages);
    assert(pages.push(last).drop_last() =~= pages);
    assert(leases_of(rows_of(pages)) + leases_of(last.items@) =~= leases_of(
        rows_of(pages) + last.items@,
    ));
}

proof fn lemma_after_pages(pages: Seq<ScanPage>)
    requires
        forall|i: int| 0 <= i < pages.len() ==> (#[trigger] pages[i]).last_evaluated is Some,
    ensures
        after_pages(pages) == leases_of(rows_of(pages)),
    decreases pages.len(),
{
    if pages.len() == 0 {
        assert(leases_of(rows_of(pages)) =~= Seq::empty());
    } else {
        assert(pages[pages.len() - 1].last_evaluated is Some);
        lemma_after_pages(pages.drop_last());
        assert(leases_of(rows_of(pages.drop_last())) + leases_of(pages.last().items@) =~= leases_of(
            rows_of(pages),
        ));
    }
}

/// Every row of a page becomes a lease, in order, and is kept behind those of
/// the pages before. A page that is followed by another has that one asked for,
/// behind the row where it ends.
pub proof fn law_every_row_becomes_a_lease(leases: Seq<LeaseModel>, page: ScanPage, i: int)
    ensures
        ({
            let (kept, action) = scan_step(leases, page);
            let all = if page.last_evaluated is Some {
                kept
            } else {
                action->Finish_0
            };
            &&& page.last_evaluated is None ==> action is Finish
            &&& page.last_evaluated is Some ==> action == ScanActionModel::Ask(
                Some((page.last_evaluated->0)@),
            )
            &&& all.len() == leases.len() + page.items@.len()
            &&& 0 <= i < leases.len() ==> all[i] == leases[i]
            &&& 0 <= i < page.items@.len() ==> all[leases.len() + i] == lease_wire::lease_of(
                record::attributes(page.items@[i]@),
            )
        }),
{
}

/// The actions of a scan are what they stand for.
pub proof fn law_actions_are_as_they_stand(a: ScanAction, i: int)
    ensures
        match a {
            ScanAction::Ask(None) => a@ == ScanActionModel::Ask(None),
            ScanAction::Ask(Some(k)) => a@ == ScanActionModel::Ask(Some(k@)),
            ScanAction::Finish(l) => a@ is Finish && a@->Finish_0.len() == l@.len() && (0 <= i
                < l@.len() ==> a@->Finish_0[i] == l@[i]@),
        },
{
}

} // verus!
