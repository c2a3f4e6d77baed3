//! Running a bounded number of cycles, to drain a set of shards that closes.

use vstd::prelude::*;

verus! {

/// What became of a cycle.
#[derive(Clone, Copy, Debug, PartialEq, Eq, Structural)]
pub enum DrainEvent {
    /// It ran: are all shards complete?
    Cycled(bool),
    Failed,
}

/// What to do next.
#[derive(Clone, Copy, Debug, PartialEq, Eq, Structural)]
pub enum DrainAction {
    RunCycle,
    /// All shards are complete, or no cycle is left.
    Finish,
    /// The last cycle failed.
    Fail,
}

/// How to go on with so many cycles left: those that are left after this, and
/// what to do.
pub open spec fn drain_on(left: nat) -> (nat, DrainAction) {
    if left > 0 {
        ((left - 1) as nat, DrainAction::RunCycle)
    } else {
        (0, DrainAction::Finish)
    }
}

/// What an event leads to, with so many cycles left. Once the drain is over, no
/// cycle is left.
pub open spec fn drain_step(left: nat, event: DrainEvent) -> (nat, DrainAction) {
    match event {
        DrainEvent::Cycled(false) => drain_on(left),
        DrainEvent::Cycled(true) => (0, DrainAction::Finish),
        DrainEvent::Failed => (0, DrainAction::Fail),
    }
}

/// A drain under way.
pub struct Drain {
    left: usize,
}

impl Drain {
    /// How many more cycles may be started.
    pub closed spec fn left(&self) -> nat {
        self.left as nat
    }

    /// Start a drain of `max_cycles` cycles at most.
    pub fn start(max_cycles: usize) -> (r: (Drain, DrainAction))
        ensures
            (r.0.left(), r.1) == drain_on(max_cycles as nat),
    {
        let mut d = Drain { left: max_cycles };
        let a = d.go_on();
        (d, a)
    }

    fn go_on(&mut self) -> (a: DrainAction)
        ensures
            (final(self).left(), a) == drain_on(old(self).left()),
    {
        if self.left > 0 {
            self.left = self.left - 1;
            DrainAction::RunCycle
        } else {
            DrainAction::Finish
        }
    }

    /// Advance the drain.
    pub fn step(&mut self, event: DrainEvent) -> (a: DrainAction)
        ensures
            (final(self).left(), a) == drain_step(old(self).left(), event),
    {
        match event {
            DrainEvent::Cycled(complete) => if complete {
                self.left = 0;
                DrainAction::Finish
            } else {
                self.go_on()
            },
            DrainEvent::Failed => {
                self.left = 0;
                DrainAction::Fail
            },
        }
    }
}

/// The cycles that are left after some events, and the actions up to then.
pub open spec fn drain_trace(max_cycles: nat, events: Seq<DrainEvent>) -> (nat, Seq<DrainAction>)
    decreases events.len(),
{
    if events.len() == 0 {
        (drain_on(max_cycles).0, seq![drain_on(max_cycles).1])
    } else {
        let (left, actions) = drain_trace(max_cycles, events.drop_last());
        let (l, a) = drain_step(left, events.last());
        (l, actions.push(a))
    }
}

/// A drain starts no more cycles than it may, whatever happens.
pub proof fn law_a_drain_is_bounded(max_cycles: nat, events: Seq<DrainEvent>)
    ensures
        ({
            let (left, actions) = drain_trace(max_cycles, events);
            actions.filter(|a: DrainAction| a == DrainAction::RunCycle).len() + left <= max_cycles
        }),
    decreases events.len(),
{
    let runs = |a: DrainAction| a == DrainAction::RunCycle;
    reveal(Seq::filter);
    if events.len() == 0 {
        let one = seq![drain_on(max_cycles).1];
        assert(one.drop_last() =~= Seq::empty());
        assert(one.drop_last().filter(runs).len() == 0);
    } else {
        law_a_drain_is_bounded(max_cycles, events.drop_last());
        let (left, actions) = drain_trace(max_cycles, events.drop_last());
        let a = drain_step(left, events.last()).1;
        assert(actions.push(a).drop_last() =~= actions);
    }
}

/// A drain whose cycles neither fail nor find all shards complete runs as many
/// as it may, and then ends without an error.
pub proof fn law_a_drain_uses_its_cycles(max_cycles: nat, n: nat)
    requires
        n <= max_cycles,
    ensures
        ({
            let events = Seq::new(n, |i: int| DrainEvent::Cycled(false));
            let (left, actions) = drain_trace(max_cycles, events);
            &&& left == drain_on((max_cycles - n) as nat).0
            &&& actions.last() == drain_on((max_cycles - n) as nat).1
        }),
    decreases n,
{
    let events = Seq::new(n, |i: int| DrainEvent::Cycled(false));
    if n > 0 {
        let before = Seq::new((n - 1) as nat, |i: int| DrainEvent::Cycled(false));
        assert(events.drop_last() =~= before);
        law_a_drain_uses_its_cycles(max_cycles, (n - 1) as nat);
    }
}

/// A drain ends when all shards are complete, with an error when a cycle fails,
/// and when no cycle is left; otherwise it runs one more.
pub proof fn law_what_ends_a_drain(left: nat)
    ensures
        drain_step(left, DrainEvent::Cycled(true)).1 == DrainAction::Finish,
        drain_step(left, DrainEvent::Failed).1 == DrainAction::Fail,
        drain_step(left, DrainEvent::Cycled(true)).0 == 0,
        drain_step(left, DrainEvent::Failed).0 == 0,
        left == 0 ==> drain_step(left, DrainEvent::Cycled(false)) == (0nat, DrainAction::Finish),
        left == 0 ==> drain_on(left) == (0nat, DrainAction::Finish),
        left > 0 ==> drain_step(left, DrainEvent::Cycled(false)) == (
            (left - 1) as nat,
            DrainAction::RunCycle,
        ),
        left > 0 ==> drain_on(left) == ((left - 1) as nat, DrainAction::RunCycle),
{
}

} // verus!
