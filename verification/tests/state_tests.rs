use fulgurobot::state::BetState;

#[test]
fn state_codes() {
    assert_eq!(i32::from(BetState::NotBetting), 0);
    assert_eq!(i32::from(BetState::Betting), 1);
    assert_eq!(i32::from(BetState::WaitingResult), 2);
    assert_eq!(BetState::from(0), BetState::NotBetting);
    assert_eq!(BetState::from(1), BetState::Betting);
    assert_eq!(BetState::from(2), BetState::WaitingResult);
    assert_eq!(BetState::from(7), BetState::NotBetting);
    assert_eq!(BetState::from(-1), BetState::NotBetting);
}

#[test]
fn state_code_roundtrip() {
    for st in [BetState::NotBetting, BetState::Betting, BetState::WaitingResult] {
        assert_eq!(BetState::from(i32::from(st)), st);
    }
    for code in 0..3 {
        assert_eq!(i32::from(BetState::from(code)), code);
    }
}
