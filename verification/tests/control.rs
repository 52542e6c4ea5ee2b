use audioverse_core::control::{first_containing, movement_axes, movement_intent, portal_to_enter, SPRINT_FACTOR};

#[test]
fn first_containing_portal_is_entered() {
    assert_eq!(portal_to_enter(false, &vec![false, true, true]), Some(1));
    assert_eq!(portal_to_enter(false, &vec![false, false]), None);
    assert_eq!(portal_to_enter(false, &vec![]), None);
}

#[test]
fn no_new_teleport_while_teleporting() {
    assert_eq!(portal_to_enter(true, &vec![true]), None);
}

#[test]
fn keys_to_axes() {
    assert_eq!(movement_axes(true, false, false, false, false), (0, 0, -1));
    assert_eq!(movement_axes(false, false, true, true, false), (1, 0, 1));
    assert_eq!(movement_axes(true, true, true, true, true), (0, 1, 0));
    assert_eq!(movement_axes(false, true, false, false, true), (-1, 1, 0));
}

#[test]
fn test_player_input_sets_move_direction() {
    // W alone moves forward, along negative z.
    let (x, y, z) = movement_axes(true, false, false, false, false);
    assert!(z < 0, "Expected forward movement on W");
    assert_eq!((x, y), (0, 0));
}

#[test]
fn test_portal_trigger_and_teleport_flow() {
    // A player standing inside the only portal's volume starts a teleport
    // through it; once teleporting, no other portal is entered.
    assert_eq!(portal_to_enter(false, &vec![true]), Some(0));
    assert_eq!(portal_to_enter(true, &vec![true]), None);
}

#[test]
fn left_shift_sprints() {
    assert_eq!(movement_intent(true, false, false, true, false, true), ((1, 0, -1), SPRINT_FACTOR));
    assert_eq!(movement_intent(true, false, false, true, false, false), ((1, 0, -1), 1));
    assert_eq!(SPRINT_FACTOR, 2);
}

#[test]
fn first_containing_volume() {
    assert_eq!(first_containing(&vec![false, true, true]), Some(1));
    assert_eq!(first_containing(&vec![false]), None);
    assert_eq!(first_containing(&vec![]), None);
}
