//! Setting up the lease table: create it if it is absent, wait until it is
//! active, and enable point-in-time recovery if that was asked for and the table
//! is new. A table that exists is never changed.

use vstd::prelude::*;

use crate::collections;
use crate::lease_table::{LeaseBilling, LeaseTableConfig};
use crate::lease_wire::LEASE_KEY;
use crate::lease_wire;
use crate::text;

verus! {

/// How long to wait between two looks at a table that is being created.
pub const ACTIVE_POLL_MS: u64 = 500;

/// How often enabling recovery is tried again.
pub const MAX_BACKUP_RETRIES: u32 = 12;

/// What to do next.
#[derive(Clone, Copy, Debug, PartialEq, Eq, Structural)]
pub enum SetupAction {
    /// Describe the table, to see whether it exists or is active.
    Describe,
    /// Create the table, with the key that `TableSetup::key_attribute` names.
    Create(LeaseBilling),
    /// Wait this long, then go on with the action that follows.
    WaitThenDescribe(u64),
    /// Enable point-in-time recovery.
    EnableBackups,
    WaitThenEnableBackups(u64),
    /// The table is ready.
    Done,
    /// The last call failed for good.
    Fail,
}

/// What the last call returned.
#[derive(Clone, Debug)]
pub enum SetupEvent {
    /// The table was described; it may be active.
    Described(bool),
    Succeeded,
    /// The call failed with this error code.
    Failed(Option<String>),
}

/// What the last call returned, with text in place of strings.
pub enum SetupEventModel {
    Described(bool),
    Succeeded,
    Failed(Option<Seq<char>>),
}

impl View for SetupEvent {
    type V = SetupEventModel;

    open spec fn view(&self) -> SetupEventModel {
        match self {
            SetupEvent::Described(a) => SetupEventModel::Described(*a),
            SetupEvent::Succeeded => SetupEventModel::Succeeded,
            SetupEvent::Failed(c) => SetupEventModel::Failed(collections::optional_text(*c)),
        }
    }
}

/// Where a setup stands.
#[derive(Clone, Copy, Debug, PartialEq, Eq, Structural)]
pub enum SetupStage {
    /// Does the table exist?
    Checking,
    Creating,
    /// Is it active? It is new if it was created here.
    Waiting(bool),
    /// Recovery is being enabled, after this many retries.
    EnablingBackups(u32),
    Finished,
}

/// The setup of a lease table.
#[derive(Clone, Copy, Debug, PartialEq, Eq, Structural)]
pub struct TableSetup {
    pub config: LeaseTableConfig,
    pub stage: SetupStage,
}

/// The error code of a table whose backups are not available yet.
pub open spec fn backups_unavailable() -> Seq<char> {
    "ContinuousBackupsUnavailableException"@
}

/// One step of a setup.
pub open spec fn setup_step(s: TableSetup, e: SetupEventModel) -> (TableSetup, SetupAction) {
    let done = TableSetup { stage: SetupStage::Finished, ..s };
    match (s.stage, e) {
        (SetupStage::Checking, SetupEventModel::Described(_)) => (
            TableSetup { stage: SetupStage::Waiting(false), ..s },
            SetupAction::Describe,
        ),
        (SetupStage::Checking, SetupEventModel::Failed(_)) => (
            TableSetup { stage: SetupStage::Creating, ..s },
            SetupAction::Create(s.config.billing),
        ),
        (SetupStage::Creating, SetupEventModel::Succeeded) => (
            TableSetup { stage: SetupStage::Waiting(true), ..s },
            SetupAction::Describe,
        ),
        (SetupStage::Waiting(created), SetupEventModel::Described(active)) => if !active {
            (s, SetupAction::WaitThenDescribe(ACTIVE_POLL_MS))
        } else if created && s.config.pitr {
            (
                TableSetup { stage: SetupStage::EnablingBackups(0), ..s },
                SetupAction::EnableBackups,
            )
        } else {
            (done, SetupAction::Done)
        },
        (SetupStage::EnablingBackups(_), SetupEventModel::Succeeded) => (done, SetupAction::Done),
        (SetupStage::EnablingBackups(n), SetupEventModel::Failed(code)) => if n
            < MAX_BACKUP_RETRIES && code == Some(backups_unavailable()) {
            (
                TableSetup { stage: SetupStage::EnablingBackups((n + 1) as u32), ..s },
                SetupAction::WaitThenEnableBackups((500 * (n + 1)) as u64),
            )
        } else {
            (done, SetupAction::Fail)
        },
        _ => (done, SetupAction::Fail),
    }
}

impl TableSetup {
    /// The key of a table that is created: one attribute, which holds text and
    /// which tells the rows apart. It is the one that rows are addressed by.
    pub fn key_attribute() -> (name: &'static str)
        ensures
            name@ == lease_wire::key_attribute(),
    {
        LEASE_KEY
    }

    /// Start a setup: the first step is to see whether the table exists.
    pub fn ensure_table(config: LeaseTableConfig) -> (r: (TableSetup, SetupAction))
        ensures
            r.0 == (TableSetup { config, stage: SetupStage::Checking }),
            r.1 == SetupAction::Describe,
    {
        (TableSetup { config, stage: SetupStage::Checking }, SetupAction::Describe)
    }

    /// Advance the setup by what the last call returned.
    pub fn step(&mut self, event: &SetupEvent) -> (a: SetupAction)
        ensures
            (*final(self), a) == setup_step(*old(self), event@),
    {
        let stage = self.stage;
        self.stage = SetupStage::Finished;
        match (stage, event) {
            (SetupStage::Checking, SetupEvent::Described(_)) => {
                self.stage = SetupStage::Waiting(false);
                SetupAction::Describe
            },
            (SetupStage::Checking, SetupEvent::Failed(_)) => {
                self.stage = SetupStage::Creating;
                SetupAction::Create(self.config.billing)
            },
            (SetupStage::Creating, SetupEvent::Succeeded) => {
                self.stage = SetupStage::Waiting(true);
                SetupAction::Describe
            },
            (SetupStage::Waiting(created), SetupEvent::Described(active)) => {
                if !*active {
                    self.stage = SetupStage::Waiting(created);
                    SetupAction::WaitThenDescribe(ACTIVE_POLL_MS)
                } else if created && self.config.pitr {
                    self.stage = SetupStage::EnablingBackups(0);
                    SetupAction::EnableBackups
                } else {
                    SetupAction::Done
                }
            },
            (SetupStage::EnablingBackups(_), SetupEvent::Succeeded) => SetupAction::Done,
            (SetupStage::EnablingBackups(n), SetupEvent::Failed(code)) => {
                let unavailable = match code {
                    Some(c) => text::same(c.as_str(), "ContinuousBackupsUnavailableException"),
                    None => false,
                };
                if n < MAX_BACKUP_RETRIES && unavailable {
                    self.stage = SetupStage::EnablingBackups(n + 1);
                    SetupAction::WaitThenEnableBackups(500 * (n as u64 + 1))
                } else {
                    SetupAction::Fail
                }
            },
            _ => SetupAction::Fail,
        }
    }
}

/// What happened up to a point, and the actions that it led to.
pub open spec fn setup_trace(s: TableSetup, events: Seq<SetupEventModel>) -> (
    TableSetup,
    Seq<SetupAction>,
)
    decreases events.len(),
{
    if events.len() == 0 {
        (s, Seq::empty())
    } else {
        let (t, actions) = setup_trace(s, events.drop_last());
        let (u, a) = setup_step(t, events.last());
        (u, actions.push(a))
    }
}

/// A table that exists is never created, and its backups are never touched,
/// whatever was asked for.
pub proof fn law_an_existing_table_is_left_alone(
    config: LeaseTableConfig,
    active: bool,
    events: Seq<SetupEventModel>,
)
    requires
        events.len() > 0,
        events[0] == SetupEventModel::Described(active),
    ensures
        ({
            let (s, actions) = setup_trace(
                TableSetup { config, stage: SetupStage::Checking },
                events,
            );
            &&& s.stage == SetupStage::Waiting(false) || s.stage == SetupStage::Finished
            &&& s.config == config
            &&& forall|i: int|
                0 <= i < actions.len() ==> !(#[trigger] actions[i] is Create || actions[i] is EnableBackups
                    || actions[i] is WaitThenEnableBackups)
        }),
    decreases events.len(),
{
    let start = TableSetup { config, stage: SetupStage::Checking };
    if events.len() == 1 {
        reveal_with_fuel(setup_trace, 2);
        assert(events.drop_last() =~= Seq::empty());
    } else {
        assert(events.drop_last()[0] == events[0]);
        law_an_existing_table_is_left_alone(config, active, events.drop_last());
        let (t, before) = setup_trace(start, events.drop_last());
        let (s, actions) = setup_trace(start, events);
        assert forall|i: int| 0 <= i < actions.len() implies !(#[trigger] actions[i] is Create
            || actions[i] is EnableBackups || actions[i] is WaitThenEnableBackups) by {
            if i < before.len() {
                assert(actions[i] == before[i]);
            }
        }
    }
}

/// Recovery is enabled only if it was asked for, only on a table that was
/// created here, and only once the table is active.
pub proof fn law_recovery_only_on_request(s: TableSetup, e: SetupEventModel)
    requires
        setup_step(s, e).1 is EnableBackups,
    ensures
        s.config.pitr,
        s.stage == SetupStage::Waiting(true),
        e == SetupEventModel::Described(true),
{
}

/// Enabling recovery is tried again at most twelve times, each time after a
/// longer wait, and only while backups are unavailable.
pub proof fn law_recovery_retries_are_bounded(s: TableSetup, e: SetupEventModel)
    requires
        setup_step(s, e).1 is WaitThenEnableBackups,
    ensures
        e == SetupEventModel::Failed(Some(backups_unavailable())),
        s.stage matches SetupStage::EnablingBackups(n) && n < MAX_BACKUP_RETRIES
            && setup_step(s, e).0.stage == SetupStage::EnablingBackups((n + 1) as u32)
            && setup_step(s, e).1 == SetupAction::WaitThenEnableBackups((500 * (n + 1)) as u64),
{
}

/// A table that is absent is created as it was asked for. It is looked at until
/// it is active, every half second. Then a new one has recovery enabled if that
/// was asked for; otherwise it is ready.
pub proof fn law_a_table_is_made_ready(config: LeaseTableConfig, code: Option<Seq<char>>, active: bool)
    ensures
        ({
            let start = TableSetup { config, stage: SetupStage::Checking };
            let (creating, create) = setup_step(start, SetupEventModel::Failed(code));
            let (new, look) = setup_step(creating, SetupEventModel::Succeeded);
            let (old, see) = setup_step(start, SetupEventModel::Described(active));
            &&& create == SetupAction::Create(config.billing)
            &&& look == SetupAction::Describe
            &&& see == SetupAction::Describe
            &&& setup_step(new, SetupEventModel::Described(false)) == (
                new,
                SetupAction::WaitThenDescribe(500),
            )
            &&& setup_step(old, SetupEventModel::Described(false)) == (
                old,
                SetupAction::WaitThenDescribe(500),
            )
            &&& setup_step(old, SetupEventModel::Described(true)).1 == SetupAction::Done
            &&& setup_step(new, SetupEventModel::Described(true)).1 == (if config.pitr {
                SetupAction::EnableBackups
            } else {
                SetupAction::Done
            })
            &&& setup_step(creating, SetupEventModel::Failed(code)).1 == SetupAction::Fail
            &&& setup_step(new, SetupEventModel::Failed(code)).1 == SetupAction::Fail
            &&& setup_step(old, SetupEventModel::Failed(code)).1 == SetupAction::Fail
        }),
{
}

/// Enabling recovery is tried again up to twelve times as long as backups are
/// unavailable, after half a second more each time; any other error ends the
/// setup, and success makes the table ready.
pub proof fn law_recovery_is_retried_while_unavailable(
    config: LeaseTableConfig,
    n: u32,
    code: Option<Seq<char>>,
)
    ensures
        ({
            let s = TableSetup { config, stage: SetupStage::EnablingBackups(n) };
            let (t, a) = setup_step(s, SetupEventModel::Failed(code));
            let again = code is Some && code->0 == "ContinuousBackupsUnavailableException"@ && n < 12;
            &&& again ==> a == SetupAction::WaitThenEnableBackups((500 * n + 500) as u64) && t.stage
                == SetupStage::EnablingBackups((n + 1) as u32)
            &&& !again ==> a == SetupAction::Fail
            &&& setup_step(s, SetupEventModel::Succeeded).1 == SetupAction::Done
        }),
{
}

/// The events of a setup are what they stand for.
pub proof fn law_events_are_as_they_stand(e: SetupEvent)
    ensures
        match e {
            SetupEvent::Described(active) => e@ == SetupEventModel::Described(active),
            SetupEvent::Succeeded => e@ is Succeeded,
            SetupEvent::Failed(None) => e@ == SetupEventModel::Failed(None),
            SetupEvent::Failed(Some(c)) => e@ == SetupEventModel::Failed(Some(c@)),
        },
{
}

} // verus!
