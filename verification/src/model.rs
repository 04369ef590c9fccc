//! The kernel as a mathematical state machine.
//!
//! A [`State`] is what a kernel is, seen from outside: a clock, the declared
//! intents, the earliest observation of each action, and the absences. The
//! three transitions are total functions on states; each comes with the
//! condition under which a caller may take it. Every contract of the
//! executable kernel is stated over these functions.

use crate::id::{ActionId, IntentId, Time};
use vstd::prelude::*;

verus! {

/// A promise that `action` will be observed strictly before `deadline`.
#[derive(Clone, Copy, Debug, PartialEq, Eq, PartialOrd, Ord)]
pub struct Intent {
    /// Identifies the intent. The caller assigns it.
    pub id: IntentId,
    /// The action whose observation keeps the promise.
    pub action: ActionId,
    /// The logical time at which, unobserved, the promise is broken.
    pub deadline: Time,
}

/// One of the three inputs that a kernel takes.
pub enum Event {
    /// An intent is declared.
    Declare(Intent),
    /// An action is observed at a logical time.
    Observe(ActionId, Time),
    /// The clock is moved to a logical time.
    Advance(Time),
}

/// The abstract state of a kernel.
pub struct State {
    /// The logical clock.
    pub current_time: Time,
    /// The declared intents, by id.
    pub intents: Map<IntentId, Intent>,
    /// The earliest time at which each observed action was seen.
    pub observations: Map<ActionId, Time>,
    /// The ids of the intents that were broken.
    pub absences: Set<IntentId>,
}

impl State {
    /// The state of a new kernel: time 0 and nothing declared, observed or
    /// absent.
    pub open spec fn init() -> State {
        State {
            current_time: 0,
            intents: Map::empty(),
            observations: Map::empty(),
            absences: Set::empty(),
        }
    }

    /// An intent may be declared only while its deadline lies in the future.
    pub open spec fn can_declare(self, intent: Intent) -> bool {
        intent.deadline > self.current_time
    }

    /// Declaring stores the intent under its id, over any earlier intent with
    /// that id, and touches nothing else.
    pub open spec fn declare(self, intent: Intent) -> State {
        State { intents: self.intents.insert(intent.id, intent), ..self }
    }

    /// The intent declared under `id` is satisfied by `action`.
    pub open spec fn binds(self, id: IntentId, action: ActionId) -> bool {
        self.intents.contains_key(id) && self.intents[id].action == action
    }

    /// An action may be observed at `time` only if `time` lies strictly before
    /// the deadline of every declared intent bound to it. The deadline instant
    /// itself is too late.
    pub open spec fn can_observe(self, action: ActionId, time: Time) -> bool {
        forall|id: IntentId| #[trigger] self.binds(id, action) ==> time < self.intents[id].deadline
    }

    /// The time recorded for `action` once it has been observed at `time`:
    /// the earlier of `time` and what was recorded before.
    pub open spec fn earliest(self, action: ActionId, time: Time) -> Time {
        if self.observations.contains_key(action) && self.observations[action] < time {
            self.observations[action]
        } else {
            time
        }
    }

    /// Observing records the earliest time for the action and touches nothing
    /// else.
    pub open spec fn observe(self, action: ActionId, time: Time) -> State {
        State {
            observations: self.observations.insert(action, self.earliest(action, time)),
            ..self
        }
    }

    /// The intent counts as observed: its action has a recorded time that does
    /// not lie after its deadline.
    pub open spec fn observed(self, intent: Intent) -> bool {
        self.observations.contains_key(intent.action) && self.observations[intent.action]
            <= intent.deadline
    }

    /// The intent declared under `id` is broken now: the clock has reached its
    /// deadline and it does not count as observed.
    pub open spec fn broken(self, id: IntentId) -> bool {
        &&& self.intents.contains_key(id)
        &&& self.current_time >= self.intents[id].deadline
        &&& !self.observed(self.intents[id])
    }

    /// Recomputing the absences adds the id of every intent that is broken
    /// now. Nothing is ever taken out.
    pub open spec fn derive_absences(self) -> State {
        State {
            absences: Set::new(|id: IntentId| self.absences.contains(id) || self.broken(id)),
            ..self
        }
    }

    /// The clock never runs backward.
    pub open spec fn can_advance(self, to: Time) -> bool {
        to >= self.current_time
    }

    /// Advancing sets the clock and then recomputes the absences.
    pub open spec fn advance(self, to: Time) -> State {
        State { current_time: to, ..self }.derive_absences()
    }

    /// The condition under which the kernel takes `event`.
    pub open spec fn admits(self, event: Event) -> bool {
        match event {
            Event::Declare(intent) => self.can_declare(intent),
            Event::Observe(action, time) => self.can_observe(action, time),
            Event::Advance(to) => self.can_advance(to),
        }
    }

    /// The state after `event`.
    pub open spec fn step(self, event: Event) -> State {
        match event {
            Event::Declare(intent) => self.declare(intent),
            Event::Observe(action, time) => self.observe(action, time),
            Event::Advance(to) => self.advance(to),
        }
    }

    /// The state after the events of `events`, taken in order.
    pub open spec fn run(self, events: Seq<Event>) -> State
        decreases events.len(),
    {
        if events.len() == 0 {
            self
        } else {
            self.run(events.drop_last()).step(events.last())
        }
    }

    /// Every event of `events` is admitted by the state it arrives in.
    pub open spec fn admits_all(self, events: Seq<Event>) -> bool
        decreases events.len(),
    {
        events.len() == 0 || (self.admits_all(events.drop_last()) && self.run(
            events.drop_last(),
        ).admits(events.last()))
    }
}

} // verus!
