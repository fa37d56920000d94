use rtsp_proxy::pairing::{pair_step, PairStep, Role};

#[test]
fn first_connection_waits() {
    assert_eq!(pair_step(None, Role::Control), PairStep::Wait);
    assert_eq!(pair_step(None, Role::Data), PairStep::Wait);
}

#[test]
fn partners_pair() {
    assert_eq!(pair_step(Some(Role::Control), Role::Data), PairStep::Pair);
    assert_eq!(pair_step(Some(Role::Data), Role::Control), PairStep::Pair);
}

#[test]
fn same_role_twice_is_refused() {
    assert_eq!(pair_step(Some(Role::Data), Role::Data), PairStep::Duplicate);
    assert_eq!(pair_step(Some(Role::Control), Role::Control), PairStep::Duplicate);
}
