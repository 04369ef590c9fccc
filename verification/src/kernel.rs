//! The executable kernel.

use crate::id::{same_id, ActionId, IntentId, Time};
use crate::id_map::{enumerates, has_key, IdMap};
use crate::id_set::IdSet;
use crate::model::{Intent, State};
use vstd::prelude::*;

verus! {

/// The ways in which a caller can break the kernel's contract. None of them
/// is recoverable: a caller that would commit one must stop.
#[derive(Clone, Copy, Debug, PartialEq, Eq, Structural)]
pub enum Violation {
    /// An intent whose deadline is not in the future.
    PrematureDeadline,
    /// An observation at or after a deadline bound to the action.
    LateObservation,
    /// A move of the clock to an earlier time.
    TimeRegression,
}

/// The kernel: a clock, the declared intents, the earliest observation of
/// each action, and the absences derived so far.
pub struct Kernel {
    current_time: Time,
    intents: IdMap<Intent>,
    observations: IdMap<Time>,
    absences: IdSet,
}

impl View for Kernel {
    type V = State;

    closed spec fn view(&self) -> State {
        State {
            current_time: self.current_time,
            intents: self.intents@,
            observations: self.observations@,
            absences: self.absences@,
        }
    }
}

impl Kernel {
    /// An empty kernel at time 0.
    pub fn new() -> (k: Self)
        ensures
            k@ == State::init(),
    {
        Kernel {
            current_time: 0,
            intents: IdMap::new(),
            observations: IdMap::new(),
            absences: IdSet::new(),
        }
    }

    /// The logical clock.
    pub fn current_time(&self) -> (t: Time)
        ensures
            t == self@.current_time,
    {
        self.current_time
    }

    /// The absences derived so far, read-only.
    pub fn absences(&self) -> (s: &IdSet)
        ensures
            s@ == self@.absences,
    {
        &self.absences
    }

    /// The earliest time recorded for `action`, if it was ever observed.
    pub fn earliest_observation(&self, action: &ActionId) -> (r: Option<Time>)
        ensures
            r == (if self@.observations.contains_key(*action) {
                Some(self@.observations[*action])
            } else {
                None
            }),
    {
        match self.observations.get(action) {
            Some(t) => Some(*t),
            None => None,
        }
    }

    /// Whether `intent` counts as observed: its action has a recorded time
    /// that does not lie after its deadline.
    pub fn was_observed(&self, intent: &Intent) -> (r: bool)
        ensures
            r == self@.observed(*intent),
    {
        match self.observations.get(&intent.action) {
            None => false,
            Some(t) => *t <= intent.deadline,
        }
    }

    /// Whether `declare_intent` may be called with `intent`.
    pub fn check_declare(&self, intent: &Intent) -> (r: Result<(), Violation>)
        ensures
            r == (if self@.can_declare(*intent) {
                Ok::<(), Violation>(())
            } else {
                Err(Violation::PrematureDeadline)
            }),
    {
        if intent.deadline > self.current_time {
            Ok(())
        } else {
            Err(Violation::PrematureDeadline)
        }
    }

    /// Whether `observe_action` may be called with `action` and `time`: no
    /// declared intent bound to `action` has its deadline at or before `time`.
    pub fn check_observe(&self, action: &ActionId, time: Time) -> (r: Result<(), Violation>)
        ensures
            r == (if self@.can_observe(*action, time) {
                Ok::<(), Violation>(())
            } else {
                Err(Violation::LateObservation)
            }),
    {
        let n: usize = self.intents.len();
        let mut i: usize = 0;
        while i < n
            invariant
                n == self.intents.entries().len(),
                i <= n,
                enumerates(self.intents.entries(), self.intents@),
                forall|j: int|
                    0 <= j < i && (#[trigger] self.intents.entries()[j]).1.action == *action
                        ==> time < self.intents.entries()[j].1.deadline,
            decreases n - i,
        {
            let intent = self.intents.value_at(i);
            if same_id(&intent.action, action) && time >= intent.deadline {
                proof {
                    let id = self.intents.entries()[i as int].0;
                    assert(self@.binds(id, *action));
                }
                return Err(Violation::LateObservation);
            }
            i += 1;
        }
        proof {
            assert forall|id: IntentId| #[trigger] self@.binds(id, *action) implies time
                < self@.intents[id].deadline by {
                assert(has_key(self.intents.entries(), id));
            }
        }
        Ok(())
    }

    /// Whether `advance_time` may be called with `to`.
    pub fn check_advance(&self, to: Time) -> (r: Result<(), Violation>)
        ensures
            r == (if self@.can_advance(to) {
                Ok::<(), Violation>(())
            } else {
                Err(Violation::TimeRegression)
            }),
    {
        if to >= self.current_time {
            Ok(())
        } else {
            Err(Violation::TimeRegression)
        }
    }

    /// Registers `intent` under its id. Declaring an id again replaces the
    /// intent stored under it. The absences and observations stay as they are.
    pub fn declare_intent(&mut self, intent: Intent)
        requires
            old(self)@.can_declare(intent),
        ensures
            final(self)@ == old(self)@.declare(intent),
    {
        self.intents.insert(intent.id, intent);
    }

    /// Records that `action` occurred at `time`. The kernel keeps the earliest
    /// time it was ever told for the action.
    pub fn observe_action(&mut self, action: ActionId, time: Time)
        requires
            old(self)@.can_observe(action, time),
        ensures
            final(self)@ == old(self)@.observe(action, time),
    {
        let earliest: Time = match self.observations.get(&action) {
            Some(t) => if *t < time {
                *t
            } else {
                time
            },
            None => time,
        };
        self.observations.insert(action, earliest);
    }

    /// Moves the clock to `to` and derives the absences that follow.
    pub fn advance_time(&mut self, to: Time)
        requires
            old(self)@.can_advance(to),
        ensures
            final(self)@ == old(self)@.advance(to),
            old(self)@.absences.subset_of(final(self)@.absences),
    {
        self.current_time = to;
        self.compute_absences();
    }

    /// Marks as absent every declared intent that is not yet absent, whose
    /// deadline the clock has reached, and that does not count as observed.
    fn compute_absences(&mut self)
        ensures
            final(self)@ == old(self)@.derive_absences(),
    {
        let n: usize = self.intents.len();
        let mut i: usize = 0;
        while i < n
            invariant
                n == self.intents.entries().len(),
                i <= n,
                enumerates(self.intents.entries(), self.intents@),
                self.current_time == old(self).current_time,
                self.intents@ == old(self).intents@,
                self.observations@ == old(self).observations@,
                forall|id: IntentId|
                    self.absences@.contains(id) <==> old(self).absences@.contains(id)
                        || broken_before(old(self)@, self.intents.entries(), i as int, id),
            decreases n - i,
        {
            let id = *self.intents.key_at(i);
            let intent = *self.intents.value_at(i);
            if !self.absences.contains(&id) && self.current_time >= intent.deadline
                && !self.was_observed(&intent) {
                self.absences.insert(id);
            }
            proof {
                let entries = self.intents.entries();
                assert(self.intents@[id] == intent);
                assert forall|x: IntentId|
                    self.absences@.contains(x) <==> old(self).absences@.contains(x)
                        || broken_before(old(self)@, entries, i + 1, x) by {
                    if broken_before(old(self)@, entries, i as int, x) {
                        assert(broken_before(old(self)@, entries, i + 1, x));
                    }
                    if x == id && old(self)@.broken(id) {
                        assert(entries[i as int].0 == x);
                    }
                }
            }
            i += 1;
        }
        proof {
            assert forall|id: IntentId| old(self)@.broken(id) implies broken_before(
                old(self)@,
                self.intents.entries(),
                n as int,
                id,
            ) by {
                assert(has_key(self.intents.entries(), id));
            }
            assert(self@.absences =~= old(self)@.derive_absences().absences);
        }
    }
}

/// One of the first `upto` entries of `entries` stands under `id`, and the
/// intent declared under `id` is broken in `state`.
spec fn broken_before(
    state: State,
    entries: Seq<(IntentId, Intent)>,
    upto: int,
    id: IntentId,
) -> bool {
    exists|j: int| 0 <= j < upto && (#[trigger] entries[j]).0 == id && state.broken(id)
}

} // verus!
