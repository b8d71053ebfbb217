use nfrs::{CarInput, Session};

fn input(forward: bool, backward: bool, left: bool, right: bool) -> CarInput {
    CarInput { forward, backward, left, right }
}

#[test]
fn thrust_follows_forward_and_backward() {
    assert_eq!(input(true, false, false, false).thrust(), 1);
    assert_eq!(input(false, true, false, false).thrust(), -1);
    assert_eq!(input(true, true, false, false).thrust(), 0);
    assert_eq!(CarInput::default().thrust(), 0);
}

#[test]
fn steering_follows_left_and_right() {
    assert_eq!(input(false, false, true, false).steering(), 1);
    assert_eq!(input(false, false, false, true).steering(), -1);
    assert_eq!(input(false, false, true, true).steering(), 0);
    assert_eq!(input(true, false, false, false).steering(), 0);
}

#[test]
fn inputs_without_a_car_are_dropped_in_order() {
    let mut s = Session::new();
    s.on_link_established(1);
    s.on_link_established(2);
    s.on_join_request(2, "bob".to_string());
    let a = input(true, false, false, false);
    let b = input(false, false, true, false);
    let c = input(false, true, false, false);
    let batch = vec![(1, a), (2, b), (3, a), (2, c), (1, b)];
    assert_eq!(s.route_inputs(&batch), vec![(2, b), (2, c)]);
    assert_eq!(s.input_target(1), None);
    assert_eq!(s.input_target(2), Some(2));
    assert_eq!(s.input_target(3), None);
}

#[test]
fn no_inputs_route_to_nothing() {
    let s = Session::new();
    assert!(s.route_inputs(&Vec::new()).is_empty());
}
