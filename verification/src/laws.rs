//! What holds of every kernel, proved over the state machine of
//! [`crate::model`]. The executable kernel's contracts say that it moves
//! exactly as that machine does, so each law is a law of the kernel.

use crate::id::{ActionId, IntentId, Time};
use crate::model::{Event, Intent, State};
use vstd::prelude::*;

verus! {

// Vocabulary

/// The events that move the clock to each time of `times` in turn.
pub open spec fn advances(times: Seq<Time>) -> Seq<Event> {
    times.map_values(|t: Time| Event::Advance(t))
}

/// `times` never steps down.
pub open spec fn nondecreasing(times: Seq<Time>) -> bool {
    forall|i: int, j: int| 0 <= i <= j < times.len() ==> times[i] <= times[j]
}

/// `times` never steps down, and does not start below `start`.
pub open spec fn ascending_from(start: Time, times: Seq<Time>) -> bool {
    &&& nondecreasing(times)
    &&& times.len() > 0 ==> start <= times[0]
}

/// No event of `events` declares an intent under `id`.
pub open spec fn never_declares(events: Seq<Event>, id: IntentId) -> bool {
    forall|k: int|
        0 <= k < events.len() ==> match #[trigger] events[k] {
            Event::Declare(intent) => intent.id != id,
            _ => true,
        }
}

/// No event of `events` observes `action`.
pub open spec fn never_observes(events: Seq<Event>, action: ActionId) -> bool {
    forall|k: int|
        0 <= k < events.len() ==> match #[trigger] events[k] {
            Event::Observe(seen, _) => seen != action,
            _ => true,
        }
}

// One event

/// The clock never runs backward: no admitted event lowers it.
pub proof fn clock_never_regresses(s: State, event: Event)
    requires
        s.admits(event),
    ensures
        s.step(event).current_time >= s.current_time,
{
}

/// Absences are never retracted: whatever the event, every id that was
/// absent before it is absent after it.
pub proof fn absences_only_grow(s: State, event: Event)
    ensures
        s.absences.subset_of(s.step(event).absences),
{
}

/// Only the clock derives absences: declaring and observing leave the
/// absence set as it is.
pub proof fn only_time_derives_absences(s: State, event: Event)
    requires
        !(event is Advance),
    ensures
        s.step(event).absences == s.absences,
{
}

/// An id enters the absence set only by a move of the clock to a time at
/// which the intent declared under it is broken.
pub proof fn new_absence_is_derived(s: State, event: Event, id: IntentId)
    requires
        !s.absences.contains(id),
        s.step(event).absences.contains(id),
    ensures
        event is Advance,
        (State { current_time: event->Advance_0, ..s }).broken(id),
{
}

/// Intents are never deleted: an id that is declared stays declared.
pub proof fn intents_persist(s: State, event: Event, id: IntentId)
    requires
        s.intents.contains_key(id),
    ensures
        s.step(event).intents.contains_key(id),
{
}

/// The time recorded for an action never rises, and an observed action stays
/// observed.
pub proof fn observations_never_rise(s: State, event: Event, action: ActionId)
    requires
        s.observations.contains_key(action),
    ensures
        s.step(event).observations.contains_key(action),
        s.step(event).observations[action] <= s.observations[action],
{
}

// Sequences of events

/// Running one event more is running the shorter sequence and then taking a
/// step.
pub proof fn lemma_run_unfolds(s: State, events: Seq<Event>, n: int)
    requires
        0 < n <= events.len(),
    ensures
        s.run(events.take(n)) == s.run(events.take(n - 1)).step(events[n - 1]),
        s.admits_all(events.take(n)) == (s.admits_all(events.take(n - 1)) && s.run(
            events.take(n - 1),
        ).admits(events[n - 1])),
{
    assert(events.take(n).drop_last() =~= events.take(n - 1));
}

/// A sequence of events that is admitted is admitted up to each of its
/// events.
pub proof fn lemma_prefix_admitted(s: State, events: Seq<Event>, n: int)
    requires
        s.admits_all(events),
        0 <= n <= events.len(),
    ensures
        s.admits_all(events.take(n)),
    decreases events.len() - n,
{
    if n == events.len() {
        assert(events.take(n) =~= events);
    } else {
        lemma_prefix_admitted(s, events, n + 1);
        lemma_run_unfolds(s, events, n + 1);
    }
}

/// Absence monotonicity. Along any sequence of events, the absence set seen
/// after the first `i` events is a subset of the one seen after the first
/// `j`, for `i <= j`.
pub proof fn absence_monotonicity(s: State, events: Seq<Event>, i: int, j: int)
    requires
        0 <= i <= j <= events.len(),
    ensures
        s.run(events.take(i)).absences.subset_of(s.run(events.take(j)).absences),
    decreases j - i,
{
    if i < j {
        absence_monotonicity(s, events, i, j - 1);
        lemma_run_unfolds(s, events, j);
        absences_only_grow(s.run(events.take(j - 1)), events[j - 1]);
    }
}

/// Absence monotonicity in time. Along any sequence of `advance_time` calls
/// with non-decreasing arguments, every call is admitted, and the absence set
/// seen after an earlier call is a subset of the one seen after a later call.
pub proof fn absences_grow_with_time(s: State, times: Seq<Time>, i: int, j: int)
    requires
        ascending_from(s.current_time, times),
        0 <= i <= j <= times.len(),
    ensures
        s.admits_all(advances(times)),
        s.run(advances(times.take(i))).absences.subset_of(
            s.run(advances(times.take(j))).absences,
        ),
{
    lemma_advances_admitted(s, times);
    assert(advances(times).take(i) =~= advances(times.take(i)));
    assert(advances(times).take(j) =~= advances(times.take(j)));
    absence_monotonicity(s, advances(times), i, j);
}

/// The clock is monotone. Along any admitted sequence of events, the time
/// after the first `i` events is not later than the time after the first `j`,
/// for `i <= j`.
pub proof fn clock_is_monotone(s: State, events: Seq<Event>, i: int, j: int)
    requires
        s.admits_all(events),
        0 <= i <= j <= events.len(),
    ensures
        s.run(events.take(i)).current_time <= s.run(events.take(j)).current_time,
    decreases j - i,
{
    if i < j {
        clock_is_monotone(s, events, i, j - 1);
        lemma_prefix_admitted(s, events, j);
        lemma_run_unfolds(s, events, j);
        clock_never_regresses(s.run(events.take(j - 1)), events[j - 1]);
    }
}

/// Evidence only improves. Along any sequence of events, an action that has
/// a recorded time after the first `i` events has one after the first `j`,
/// for `i <= j`, and that one is not later.
pub proof fn observations_only_fall(
    s: State,
    events: Seq<Event>,
    i: int,
    j: int,
    action: ActionId,
)
    requires
        0 <= i <= j <= events.len(),
        s.run(events.take(i)).observations.contains_key(action),
    ensures
        s.run(events.take(j)).observations.contains_key(action),
        s.run(events.take(j)).observations[action] <= s.run(events.take(i)).observations[action],
    decreases j - i,
{
    if i < j {
        observations_only_fall(s, events, i, j - 1, action);
        lemma_run_unfolds(s, events, j);
        observations_never_rise(s.run(events.take(j - 1)), events[j - 1], action);
    }
}

// Moving the clock

/// Moving the clock through `times` changes the clock and the absences, and
/// nothing else; the clock ends at the last of `times`.
proof fn lemma_advances_frame(s: State, times: Seq<Time>)
    ensures
        s.run(advances(times)).intents == s.intents,
        s.run(advances(times)).observations == s.observations,
        s.run(advances(times)).current_time == (if times.len() == 0 {
            s.current_time
        } else {
            times.last()
        }),
    decreases times.len(),
{
    if times.len() > 0 {
        assert(advances(times).drop_last() =~= advances(times.drop_last()));
        lemma_advances_frame(s, times.drop_last());
    }
}

/// Moves of the clock to times that never step down, starting at or after
/// the current time, are all admitted.
proof fn lemma_advances_admitted(s: State, times: Seq<Time>)
    requires
        ascending_from(s.current_time, times),
    ensures
        s.admits_all(advances(times)),
    decreases times.len(),
{
    if times.len() > 0 {
        let earlier = times.drop_last();
        assert(advances(times).drop_last() =~= advances(earlier));
        assert forall|i: int| 0 <= i < earlier.len() implies earlier[i] == times[i] by {}
        lemma_advances_admitted(s, earlier);
        lemma_advances_frame(s, earlier);
    }
}

/// Recomputing the absences twice is recomputing them once.
pub proof fn derivation_is_idempotent(s: State)
    ensures
        s.derive_absences().derive_absences() == s.derive_absences(),
{
    assert(s.derive_absences().derive_absences().absences =~= s.derive_absences().absences);
}

/// Idempotent recomputation. Moving the clock to `t1` and then to a time
/// `t2 >= t1` gives the state that moving it to `t2` at once gives: a repeated
/// or later call removes nothing and derives no id differently.
pub proof fn advance_absorbs(s: State, t1: Time, t2: Time)
    requires
        t1 <= t2,
    ensures
        s.advance(t1).advance(t2) == s.advance(t2),
        s.advance(t1).absences.subset_of(s.advance(t2).absences),
{
    let once = s.advance(t2);
    let twice = s.advance(t1).advance(t2);
    assert forall|id: IntentId| twice.absences.contains(id) <==> once.absences.contains(id) by {
        let at1 = State { current_time: t1, ..s };
        let at2 = State { current_time: t2, ..s };
        let mid = State { current_time: t2, ..s.advance(t1) };
        assert(at1.broken(id) ==> at2.broken(id));
        assert(mid.broken(id) <==> at2.broken(id));
    }
    assert(twice.absences =~= once.absences);
}

/// Any number of `advance_time` calls with non-decreasing arguments gives the
/// state that the last of them alone gives.
pub proof fn repeated_advances_collapse(s: State, times: Seq<Time>)
    requires
        nondecreasing(times),
        times.len() > 0,
    ensures
        s.run(advances(times)) == s.advance(times.last()),
    decreases times.len(),
{
    let earlier = times.drop_last();
    assert(advances(times).drop_last() =~= advances(earlier));
    assert(advances(times).last() == Event::Advance(times.last()));
    if earlier.len() > 0 {
        assert forall|i: int, j: int| 0 <= i <= j < earlier.len() implies earlier[i]
            <= earlier[j] by {
            assert(earlier[i] == times[i] && earlier[j] == times[j]);
        }
        repeated_advances_collapse(s, earlier);
        assert(earlier.last() == times[times.len() - 2]);
        advance_absorbs(s, earlier.last(), times.last());
    } else {
        reveal_with_fuel(State::run, 2);
    }
}

/// A silent kernel is stable. From a state with no declared intent, any
/// sequence of `advance_time` calls with non-decreasing arguments is admitted
/// and leaves the absence set as it was; from a new kernel it stays empty.
pub proof fn silent_kernel_is_stable(s: State, times: Seq<Time>)
    requires
        s.intents == Map::<IntentId, Intent>::empty(),
        ascending_from(s.current_time, times),
    ensures
        s.admits_all(advances(times)),
        s.run(advances(times)).absences == s.absences,
        State::init().admits_all(advances(times)),
        State::init().run(advances(times)).absences == Set::<IntentId>::empty(),
{
    lemma_advances_admitted(s, times);
    lemma_advances_admitted(State::init(), times);
    if times.len() > 0 {
        repeated_advances_collapse(s, times);
        repeated_advances_collapse(State::init(), times);
        assert(s.advance(times.last()).absences =~= s.absences);
        assert(State::init().advance(times.last()).absences =~= Set::<IntentId>::empty());
    }
}

// Promises kept and broken

/// As long as an id is not declared again and the action of its intent is not
/// observed, the intent stays as declared and the record of its action stays
/// as it is.
proof fn lemma_silence_lasts(s: State, id: IntentId, events: Seq<Event>)
    requires
        s.intents.contains_key(id),
        never_declares(events, id),
        never_observes(events, s.intents[id].action),
    ensures
        s.run(events).intents.contains_key(id),
        s.run(events).intents[id] == s.intents[id],
        s.run(events).observed(s.intents[id]) == s.observed(s.intents[id]),
    decreases events.len(),
{
    if events.len() > 0 {
        let last = events[events.len() - 1];
        let earlier = events.drop_last();
        assert forall|k: int| 0 <= k < earlier.len() implies earlier[k] == events[k] by {}
        lemma_silence_lasts(s, id, earlier);
    }
}

/// Silence implies absence. Declare an intent whose action has no record at
/// or before the deadline; let anything happen that neither observes that
/// action nor declares the id again; then move the clock to the deadline or
/// beyond. The intent's id is in the absence set.
pub proof fn silence_implies_absence(s: State, intent: Intent, events: Seq<Event>, to: Time)
    requires
        !s.observed(intent),
        never_observes(events, intent.action),
        never_declares(events, intent.id),
        to >= intent.deadline,
    ensures
        s.declare(intent).run(events).advance(to).absences.contains(intent.id),
{
    let declared = s.declare(intent);
    lemma_silence_lasts(declared, intent.id, events);
    let later = declared.run(events);
    assert(State { current_time: to, ..later }.broken(intent.id));
}

/// A kept promise is never marked absent. If the intent declared under `id`
/// counts as observed and is not absent, it is not absent after any sequence
/// of events that does not declare `id` again.
pub proof fn kept_promise_stays_kept(s: State, id: IntentId, events: Seq<Event>)
    requires
        s.intents.contains_key(id),
        s.observed(s.intents[id]),
        !s.absences.contains(id),
        never_declares(events, id),
    ensures
        s.run(events).intents.contains_key(id),
        s.run(events).intents[id] == s.intents[id],
        s.run(events).observed(s.intents[id]),
        !s.run(events).absences.contains(id),
    decreases events.len(),
{
    if events.len() > 0 {
        let last = events[events.len() - 1];
        let earlier = events.drop_last();
        assert forall|k: int| 0 <= k < earlier.len() implies earlier[k] == events[k] by {}
        kept_promise_stays_kept(s, id, earlier);
        if let Event::Advance(to) = last {
            assert(!State { current_time: to, ..s.run(earlier) }.broken(id));
        }
    }
}

/// Early observation prevents absence. Declare an intent whose id is not
/// absent already, then observe its action at a time strictly before the
/// deadline. Whatever follows, as long as the id is not declared again, and
/// however far the clock is moved, the id never enters the absence set.
pub proof fn early_observation_prevents_absence(
    s: State,
    intent: Intent,
    time: Time,
    events: Seq<Event>,
)
    requires
        !s.absences.contains(intent.id),
        time < intent.deadline,
        never_declares(events, intent.id),
    ensures
        !s.declare(intent).observe(intent.action, time).run(events).absences.contains(intent.id),
{
    let seen = s.declare(intent).observe(intent.action, time);
    kept_promise_stays_kept(seen, intent.id, events);
}

/// Late observation is refused. An observation at or after the deadline of
/// any declared intent bound to the action is not admitted; the deadline
/// instant itself is too late.
pub proof fn late_observation_is_refused(s: State, id: IntentId, action: ActionId, time: Time)
    requires
        s.binds(id, action),
        time >= s.intents[id].deadline,
    ensures
        !s.can_observe(action, time),
        !s.admits(Event::Observe(action, time)),
{
}

/// Only a late observation is refused. An observation that is not admitted
/// lies at or after the deadline of some declared intent bound to the action.
pub proof fn refused_observation_is_late(s: State, action: ActionId, time: Time) -> (id: IntentId)
    requires
        !s.can_observe(action, time),
    ensures
        s.binds(id, action),
        time >= s.intents[id].deadline,
{
    choose|id: IntentId| #[trigger] s.binds(id, action) && time >= s.intents[id].deadline
}

/// The boundary is exclusive on one side and inclusive on the other. Once an
/// intent is declared, an observation of its action at the deadline is
/// refused; unobserved, the intent is not absent one tick before the deadline
/// and is absent at the deadline; observed one tick before the deadline, it is
/// not absent at the deadline.
pub proof fn deadline_boundary(s: State, intent: Intent)
    requires
        !s.absences.contains(intent.id),
        !s.observed(intent),
        intent.deadline > 0,
    ensures
        !s.declare(intent).can_observe(intent.action, intent.deadline),
        !s.declare(intent).advance((intent.deadline - 1) as Time).absences.contains(intent.id),
        s.declare(intent).advance(intent.deadline).absences.contains(intent.id),
        !s.declare(intent).observe(intent.action, (intent.deadline - 1) as Time).advance(
            intent.deadline,
        ).absences.contains(intent.id),
{
    let declared = s.declare(intent);
    assert(declared.binds(intent.id, intent.action));
    assert(State { current_time: intent.deadline, ..declared }.broken(intent.id));
}

// Observations

/// Observing an action twice records the same time in either order.
pub proof fn observation_order_is_irrelevant(s: State, action: ActionId, t1: Time, t2: Time)
    ensures
        s.observe(action, t1).observe(action, t2) == s.observe(action, t2).observe(action, t1),
{
    let a = s.observe(action, t1).observe(action, t2);
    let b = s.observe(action, t2).observe(action, t1);
    assert(a.observations =~= b.observations);
}

/// Earliest observation wins. If an action has no record earlier than `t1`,
/// observing it at `t1` and at a later `t2`, in either order, records `t1`.
pub proof fn earliest_observation_wins(s: State, action: ActionId, t1: Time, t2: Time)
    requires
        t1 <= t2,
        s.observations.contains_key(action) ==> t1 <= s.observations[action],
    ensures
        s.observe(action, t1).observe(action, t2).observations.contains_key(action),
        s.observe(action, t1).observe(action, t2).observations[action] == t1,
        s.observe(action, t2).observe(action, t1).observations.contains_key(action),
        s.observe(action, t2).observe(action, t1).observations[action] == t1,
{
}

// Why an id is absent

/// Every absence has a cause. If `id` is absent after `events` and was not
/// absent before them, then one of them moved the clock to a time at which
/// the intent then declared under `id` was broken.
pub proof fn absence_has_cause(s: State, events: Seq<Event>, id: IntentId) -> (k: int)
    requires
        !s.absences.contains(id),
        s.run(events).absences.contains(id),
    ensures
        0 <= k < events.len(),
        events[k] is Advance,
        (State { current_time: events[k]->Advance_0, ..s.run(events.take(k)) }).broken(id),
    decreases events.len(),
{
    let n = events.len() as int;
    let earlier = events.drop_last();
    assert(earlier =~= events.take(n - 1));
    if s.run(earlier).absences.contains(id) {
        let k = absence_has_cause(s, earlier, id);
        assert(earlier.take(k) =~= events.take(k));
        k
    } else {
        new_absence_is_derived(s.run(earlier), events[n - 1], id);
        n - 1
    }
}

/// Every cause has its absence. If some event of `events` moves the clock to
/// a time at which the intent then declared under `id` is broken, `id` is
/// absent after `events`.
pub proof fn cause_has_absence(s: State, events: Seq<Event>, k: int, id: IntentId)
    requires
        0 <= k < events.len(),
        events[k] is Advance,
        (State { current_time: events[k]->Advance_0, ..s.run(events.take(k)) }).broken(id),
    ensures
        s.run(events).absences.contains(id),
{
    lemma_run_unfolds(s, events, k + 1);
    absence_monotonicity(s, events, k + 1, events.len() as int);
    assert(events.take(events.len() as int) =~= events);
}

// The states that a kernel reaches

/// What holds of every state that a new kernel can reach: each intent is
/// stored under its own id, only declared ids are absent, and every intent
/// that is broken now is absent already.
pub open spec fn settled(s: State) -> bool {
    &&& forall|id: IntentId| #[trigger] s.intents.contains_key(id) ==> s.intents[id].id == id
    &&& forall|id: IntentId| #[trigger] s.absences.contains(id) ==> s.intents.contains_key(id)
    &&& forall|id: IntentId| #[trigger] s.broken(id) ==> s.absences.contains(id)
}

/// A new kernel is settled, and every admitted event keeps it so.
pub proof fn settled_is_invariant(s: State, event: Event)
    requires
        settled(s),
        s.admits(event),
    ensures
        settled(State::init()),
        settled(s.step(event)),
{
    let after = s.step(event);
    assert forall|id: IntentId| #[trigger] after.broken(id) implies after.absences.contains(id) by {
        match event {
            Event::Declare(intent) => {
                if id != intent.id {
                    assert(s.broken(id));
                }
            },
            Event::Observe(action, time) => {
                assert(s.broken(id));
            },
            Event::Advance(to) => {},
        }
    }
}

/// Every state that a new kernel reaches through admitted events is settled.
pub proof fn reachable_states_are_settled(events: Seq<Event>)
    requires
        State::init().admits_all(events),
    ensures
        settled(State::init().run(events)),
    decreases events.len(),
{
    if events.len() > 0 {
        reachable_states_are_settled(events.drop_last());
        settled_is_invariant(State::init().run(events.drop_last()), events.last());
    }
}

/// In a settled state, advancing by zero changes nothing: every absence due
/// at the current instant has been derived.
pub proof fn advance_by_zero_is_noop(s: State)
    requires
        settled(s),
    ensures
        s.advance(s.current_time) == s,
{
    assert(s.advance(s.current_time).absences =~= s.absences);
}

} // verus!
