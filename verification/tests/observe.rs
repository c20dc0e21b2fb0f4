use skate_mods::observe::{teleport_ready, Observer, Transition, RESET_STATE};

#[test]
fn the_first_observation_reports_changes_from_the_baseline() {
    let mut o = Observer::new();
    assert!(o.world_changed(0));
    assert!(!o.world_changed(0));
    assert!(o.world_changed(1));
    assert_eq!(o.step(false, 0, false), vec![]);
    assert_eq!(
        o.step(true, 12, true),
        vec![
            Transition::Bail { bailing: true },
            Transition::PlayerState { previous: 0, state: 12 },
            Transition::Grind { active: true },
        ]
    );
}

#[test]
fn only_changed_flags_are_reported_in_order() {
    let mut o = Observer::new();
    o.step(false, 5, false);
    assert_eq!(o.step(false, 5, true), vec![Transition::Grind { active: true }]);
    assert_eq!(
        o.step(true, 7, true),
        vec![Transition::Bail { bailing: true }, Transition::PlayerState { previous: 5, state: 7 }]
    );
    assert_eq!(o.step(true, 7, true), vec![]);
    assert_eq!(o.state, 7);
    assert!(o.bailing);
}

#[test]
fn teleports_wait_for_a_settled_skater() {
    assert_eq!(teleport_ready(false, false, false, false, 1, false), Ok(()));
    assert_eq!(
        teleport_ready(true, true, false, false, 1, false),
        Err("Exit the vehicle before teleporting the skater".to_string())
    );
    assert_eq!(
        teleport_ready(false, false, true, true, 1, false),
        Err("Teleport unavailable during map loading or replay".to_string())
    );
    assert_eq!(
        teleport_ready(false, false, false, false, RESET_STATE, false),
        Err("Teleport unavailable during reset".to_string())
    );
    assert_eq!(
        teleport_ready(false, false, false, false, 1, true),
        Err("Teleport unavailable during reset".to_string())
    );
    assert_eq!(
        teleport_ready(false, false, false, true, 1, false),
        Err("Teleport unavailable during reset".to_string())
    );
}
