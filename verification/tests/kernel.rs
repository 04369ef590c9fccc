use absence_kernel::{Intent, Kernel, Violation};

fn intent(id: u8, action: u8, deadline: u64) -> Intent {
    Intent { id: [id; 32], action: [action; 32], deadline }
}

#[test]
fn kernel_survives_silence() {
    let mut k = Kernel::new();
    k.advance_time(1);
    k.advance_time(100);
    k.advance_time(1000);

    // No panic, no state corruption
    assert!(k.absences().is_empty());
}

#[test]
fn new_kernel_is_empty_at_time_zero() {
    let k = Kernel::new();
    assert_eq!(k.current_time(), 0);
    assert!(k.absences().is_empty());
    assert_eq!(k.absences().len(), 0);
    assert_eq!(k.earliest_observation(&[1u8; 32]), None);
}

#[test]
fn advance_sets_the_clock() {
    let mut k = Kernel::new();
    k.advance_time(0);
    assert_eq!(k.current_time(), 0);
    k.advance_time(17);
    assert_eq!(k.current_time(), 17);
    k.advance_time(17);
    assert_eq!(k.current_time(), 17);
    k.advance_time(u64::MAX);
    assert_eq!(k.current_time(), u64::MAX);
}

#[test]
fn declaring_touches_neither_absences_nor_observations() {
    let mut k = Kernel::new();
    k.declare_intent(intent(1, 2, 5));
    assert!(k.absences().is_empty());
    assert_eq!(k.earliest_observation(&[2u8; 32]), None);
    assert_eq!(k.current_time(), 0);
}

#[test]
fn silence_at_the_deadline_is_absence() {
    let mut k = Kernel::new();
    let i = intent(3, 4, 10);
    k.declare_intent(i);
    k.advance_time(9);
    assert!(!k.absences().contains(&i.id));
    k.advance_time(10);
    assert!(k.absences().contains(&i.id));
    assert_eq!(k.absences().len(), 1);
}

#[test]
fn silence_beyond_the_deadline_is_absence() {
    let mut k = Kernel::new();
    let i = intent(3, 4, 10);
    k.declare_intent(i);
    k.advance_time(500);
    assert!(k.absences().contains(&i.id));
}

#[test]
fn observation_one_tick_early_keeps_the_promise() {
    let mut k = Kernel::new();
    let i = intent(5, 6, 10);
    k.declare_intent(i);
    assert_eq!(k.check_observe(&i.action, 9), Ok(()));
    k.observe_action(i.action, 9);
    k.advance_time(10);
    assert!(!k.absences().contains(&i.id));
    k.advance_time(1000);
    assert!(k.absences().is_empty());
}

#[test]
fn observation_at_the_deadline_is_refused() {
    let mut k = Kernel::new();
    let i = intent(7, 8, 10);
    k.declare_intent(i);
    assert_eq!(k.check_observe(&i.action, 10), Err(Violation::LateObservation));
    assert_eq!(k.check_observe(&i.action, 11), Err(Violation::LateObservation));
    assert_eq!(k.check_observe(&i.action, u64::MAX), Err(Violation::LateObservation));
    assert_eq!(k.check_observe(&i.action, 9), Ok(()));
    assert_eq!(k.check_observe(&i.action, 0), Ok(()));
}

#[test]
fn observation_is_checked_against_every_bound_intent() {
    let mut k = Kernel::new();
    k.declare_intent(intent(1, 9, 20));
    k.declare_intent(intent(2, 9, 10));
    k.declare_intent(intent(3, 9, 30));
    k.declare_intent(intent(4, 8, 5));
    assert_eq!(k.check_observe(&[9u8; 32], 9), Ok(()));
    assert_eq!(k.check_observe(&[9u8; 32], 10), Err(Violation::LateObservation));
    assert_eq!(k.check_observe(&[9u8; 32], 25), Err(Violation::LateObservation));
    assert_eq!(k.check_observe(&[8u8; 32], 4), Ok(()));
    assert_eq!(k.check_observe(&[8u8; 32], 5), Err(Violation::LateObservation));
}

#[test]
fn observation_of_an_unbound_action_is_always_admitted() {
    let mut k = Kernel::new();
    k.declare_intent(intent(1, 2, 10));
    assert_eq!(k.check_observe(&[3u8; 32], 10), Ok(()));
    assert_eq!(k.check_observe(&[3u8; 32], u64::MAX), Ok(()));
    k.observe_action([3u8; 32], 999);
    assert_eq!(k.earliest_observation(&[3u8; 32]), Some(999));
}

#[test]
fn premature_deadline_is_refused() {
    let mut k = Kernel::new();
    assert_eq!(k.check_declare(&intent(1, 2, 0)), Err(Violation::PrematureDeadline));
    assert_eq!(k.check_declare(&intent(1, 2, 1)), Ok(()));
    k.advance_time(10);
    assert_eq!(k.check_declare(&intent(1, 2, 9)), Err(Violation::PrematureDeadline));
    assert_eq!(k.check_declare(&intent(1, 2, 10)), Err(Violation::PrematureDeadline));
    assert_eq!(k.check_declare(&intent(1, 2, 11)), Ok(()));
}

#[test]
fn time_regression_is_refused() {
    let mut k = Kernel::new();
    assert_eq!(k.check_advance(0), Ok(()));
    k.advance_time(10);
    assert_eq!(k.check_advance(9), Err(Violation::TimeRegression));
    assert_eq!(k.check_advance(0), Err(Violation::TimeRegression));
    assert_eq!(k.check_advance(10), Ok(()));
    assert_eq!(k.check_advance(11), Ok(()));
}

#[test]
fn checks_change_nothing() {
    let mut k = Kernel::new();
    let i = intent(1, 2, 10);
    k.declare_intent(i);
    k.advance_time(3);
    let _ = k.check_declare(&intent(9, 9, 1));
    let _ = k.check_observe(&i.action, 50);
    let _ = k.check_advance(1);
    assert_eq!(k.current_time(), 3);
    assert!(k.absences().is_empty());
    assert_eq!(k.earliest_observation(&i.action), None);
    k.advance_time(10);
    assert!(k.absences().contains(&i.id));
}

#[test]
fn earliest_observation_is_kept_in_either_order() {
    let action = [6u8; 32];

    let mut k = Kernel::new();
    k.observe_action(action, 3);
    k.observe_action(action, 7);
    assert_eq!(k.earliest_observation(&action), Some(3));

    let mut k = Kernel::new();
    k.observe_action(action, 7);
    assert_eq!(k.earliest_observation(&action), Some(7));
    k.observe_action(action, 3);
    assert_eq!(k.earliest_observation(&action), Some(3));
    k.observe_action(action, 3);
    assert_eq!(k.earliest_observation(&action), Some(3));
    k.observe_action(action, 100);
    assert_eq!(k.earliest_observation(&action), Some(3));
    k.observe_action(action, 0);
    assert_eq!(k.earliest_observation(&action), Some(0));
}

#[test]
fn observations_are_kept_per_action() {
    let mut k = Kernel::new();
    k.observe_action([1u8; 32], 50);
    k.observe_action([2u8; 32], 40);
    k.observe_action([1u8; 32], 45);
    assert_eq!(k.earliest_observation(&[1u8; 32]), Some(45));
    assert_eq!(k.earliest_observation(&[2u8; 32]), Some(40));
    assert_eq!(k.earliest_observation(&[3u8; 32]), None);
}

#[test]
fn was_observed_compares_with_the_deadline_inclusively() {
    let mut k = Kernel::new();
    let action = [4u8; 32];
    assert!(!k.was_observed(&intent(1, 4, 10)));
    k.observe_action(action, 10);
    assert!(k.was_observed(&intent(1, 4, 10)));
    assert!(k.was_observed(&intent(1, 4, 11)));
    assert!(!k.was_observed(&intent(1, 4, 9)));
    assert!(!k.was_observed(&intent(1, 5, 10)));
}

#[test]
fn observation_recorded_before_the_declaration_counts() {
    let mut k = Kernel::new();
    let i = intent(1, 4, 10);
    k.observe_action(i.action, 10);
    k.declare_intent(i);
    k.advance_time(10);
    assert!(!k.absences().contains(&i.id));

    let mut k = Kernel::new();
    let i = intent(1, 4, 10);
    k.observe_action(i.action, 11);
    k.declare_intent(i);
    k.advance_time(10);
    assert!(k.absences().contains(&i.id));
}

#[test]
fn observing_another_action_does_not_keep_the_promise() {
    let mut k = Kernel::new();
    let i = intent(1, 2, 10);
    k.declare_intent(i);
    k.observe_action([3u8; 32], 1);
    k.advance_time(10);
    assert!(k.absences().contains(&i.id));
}

#[test]
fn one_observation_keeps_every_promise_on_the_action() {
    let mut k = Kernel::new();
    let a = intent(1, 9, 10);
    let b = intent(2, 9, 20);
    let c = intent(3, 8, 20);
    k.declare_intent(a);
    k.declare_intent(b);
    k.declare_intent(c);
    k.observe_action([9u8; 32], 5);
    k.advance_time(25);
    assert!(!k.absences().contains(&a.id));
    assert!(!k.absences().contains(&b.id));
    assert!(k.absences().contains(&c.id));
    assert_eq!(k.absences().len(), 1);
}

#[test]
fn absences_are_derived_as_deadlines_pass() {
    let mut k = Kernel::new();
    let a = intent(1, 11, 10);
    let b = intent(2, 12, 20);
    let c = intent(3, 13, 30);
    k.declare_intent(c);
    k.declare_intent(a);
    k.declare_intent(b);
    k.advance_time(5);
    assert_eq!(k.absences().len(), 0);
    k.advance_time(10);
    assert_eq!(k.absences().to_vec(), vec![a.id]);
    k.advance_time(29);
    assert_eq!(k.absences().len(), 2);
    assert!(k.absences().contains(&a.id));
    assert!(k.absences().contains(&b.id));
    assert!(!k.absences().contains(&c.id));
    k.advance_time(30);
    assert_eq!(k.absences().len(), 3);
    assert!(k.absences().contains(&c.id));
}

#[test]
fn an_absence_is_never_retracted() {
    let mut k = Kernel::new();
    let i = intent(1, 2, 10);
    k.declare_intent(i);
    k.advance_time(10);
    assert!(k.absences().contains(&i.id));
    // Evidence that arrives after the fact changes nothing.
    assert_eq!(k.check_observe(&i.action, 5), Ok(()));
    k.observe_action(i.action, 5);
    k.advance_time(10);
    assert!(k.absences().contains(&i.id));
    k.advance_time(11);
    assert!(k.absences().contains(&i.id));
    assert_eq!(k.absences().len(), 1);
}

#[test]
fn declaring_an_id_again_replaces_the_intent() {
    let mut k = Kernel::new();
    k.declare_intent(intent(1, 2, 10));
    k.declare_intent(intent(1, 3, 20));
    // Only the second intent is bound now: action 2 is free, action 3 is not.
    assert_eq!(k.check_observe(&[2u8; 32], 15), Ok(()));
    assert_eq!(k.check_observe(&[3u8; 32], 20), Err(Violation::LateObservation));
    k.advance_time(10);
    assert!(k.absences().is_empty());
    k.advance_time(20);
    assert!(k.absences().contains(&[1u8; 32]));
    assert_eq!(k.absences().len(), 1);
}

#[test]
fn an_absent_id_stays_absent_when_declared_again() {
    let mut k = Kernel::new();
    k.declare_intent(intent(1, 2, 5));
    k.advance_time(5);
    assert!(k.absences().contains(&[1u8; 32]));
    k.declare_intent(intent(1, 3, 10));
    k.observe_action([3u8; 32], 6);
    k.advance_time(10);
    assert!(k.absences().contains(&[1u8; 32]));
    assert_eq!(k.absences().len(), 1);
}

#[test]
fn repeated_advance_to_the_same_time_changes_nothing() {
    let mut k = Kernel::new();
    let a = intent(1, 11, 10);
    let b = intent(2, 12, 20);
    k.declare_intent(a);
    k.declare_intent(b);
    k.advance_time(10);
    let first = k.absences().clone();
    k.advance_time(10);
    k.advance_time(10);
    assert!(first.is_subset(k.absences()));
    assert!(k.absences().is_subset(&first));
    assert_eq!(k.absences().to_vec(), vec![a.id]);
}

#[test]
fn advancing_in_steps_equals_advancing_at_once() {
    let mut stepwise = Kernel::new();
    let mut direct = Kernel::new();
    for k in [&mut stepwise, &mut direct] {
        k.declare_intent(intent(1, 11, 10));
        k.declare_intent(intent(2, 12, 20));
        k.declare_intent(intent(3, 13, 40));
        k.observe_action([12u8; 32], 7);
    }
    stepwise.advance_time(10);
    stepwise.advance_time(15);
    stepwise.advance_time(30);
    direct.advance_time(30);
    assert_eq!(stepwise.current_time(), direct.current_time());
    assert!(stepwise.absences().is_subset(direct.absences()));
    assert!(direct.absences().is_subset(stepwise.absences()));
    assert_eq!(direct.absences().to_vec(), vec![[1u8; 32]]);
}

#[test]
fn absences_are_listed_in_id_order() {
    let mut k = Kernel::new();
    k.declare_intent(intent(30, 1, 5));
    k.declare_intent(intent(10, 2, 7));
    k.declare_intent(intent(20, 3, 6));
    k.advance_time(5);
    assert_eq!(k.absences().to_vec(), vec![[30u8; 32]]);
    k.advance_time(7);
    assert_eq!(k.absences().to_vec(), vec![[10u8; 32], [20u8; 32], [30u8; 32]]);
}

#[test]
fn ids_that_differ_in_one_byte_are_different_intents() {
    let mut k = Kernel::new();
    let mut id_a = [0u8; 32];
    let mut id_b = [0u8; 32];
    id_a[31] = 1;
    id_b[31] = 2;
    let mut action = [0u8; 32];
    action[0] = 9;
    k.declare_intent(Intent { id: id_a, action, deadline: 5 });
    k.declare_intent(Intent { id: id_b, action: [0u8; 32], deadline: 6 });
    k.observe_action(action, 1);
    k.advance_time(6);
    assert!(!k.absences().contains(&id_a));
    assert!(k.absences().contains(&id_b));
    assert!(!k.absences().contains(&[0u8; 32]));
}

#[test]
fn the_largest_times_are_ordinary_times() {
    let mut k = Kernel::new();
    let i = intent(1, 2, u64::MAX);
    let j = intent(3, 4, u64::MAX);
    k.declare_intent(i);
    k.declare_intent(j);
    assert_eq!(k.check_observe(&i.action, u64::MAX), Err(Violation::LateObservation));
    assert_eq!(k.check_observe(&i.action, u64::MAX - 1), Ok(()));
    k.observe_action(i.action, u64::MAX - 1);
    k.advance_time(u64::MAX - 1);
    assert!(k.absences().is_empty());
    k.advance_time(u64::MAX);
    assert_eq!(k.absences().to_vec(), vec![j.id]);
    assert_eq!(k.check_advance(u64::MAX), Ok(()));
    assert_eq!(k.check_declare(&intent(5, 6, u64::MAX)), Err(Violation::PrematureDeadline));
}
