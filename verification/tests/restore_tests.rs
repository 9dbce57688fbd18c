use fulgurobot::restore::{apply_restore, expire_restored_bets, restore_context, restore_from};
use fulgurobot::state::{BetState, BetStateData, GameData};
use fulgurobot::store::{create_game, get_game, get_games, update_game_start, update_game_state, Database};

fn s(x: &str) -> String {
    x.to_string()
}

/// 2020-01-01 00:00:00 UTC
const T0: i64 = 1577836800;

#[test]
fn restore_reads_states_and_windows() {
    let mut db = Database::new();
    create_game(s("A"), s("B"), &mut db);
    update_game_state(s("A"), s("B"), 2, &mut db);
    create_game(s("C"), s("D"), &mut db);
    update_game_start(s("C"), s("D"), s("2020-01-01 00:00:00.500000000 UTC"), 600, &mut db);
    create_game(s("E"), s("F"), &mut db);
    update_game_start(s("E"), s("F"), s("2020-01-01 00:00:00.000000000 UTC"), 60, &mut db);

    let r = restore_context(&db, (T0 + 100, 0)).unwrap();
    assert_eq!(r.slots.len(), 3);
    assert_eq!(r.slots[1].black, "C");
    assert!(r.slots.iter().all(|slot| slot.pin.is_none()));
    assert_eq!(r.states, vec![BetState::WaitingResult, BetState::Betting, BetState::WaitingResult]);
    assert_eq!(r.timers.len(), 1);
    assert_eq!(r.timers[0].index, 1);
    assert_eq!(r.timers[0].fire_at, (T0 + 660, 500_000_000));
}

#[test]
fn restore_at_the_deadline_is_still_open() {
    let mut db = Database::new();
    create_game(s("C"), s("D"), &mut db);
    update_game_start(s("C"), s("D"), s("2020-01-01 00:00:00.500000000 UTC"), 600, &mut db);
    let at = restore_context(&db, (T0 + 600, 500_000_000)).unwrap();
    assert_eq!(at.states, vec![BetState::Betting]);
    let after = restore_context(&db, (T0 + 600, 500_000_001)).unwrap();
    assert_eq!(after.states, vec![BetState::WaitingResult]);
    assert!(after.timers.is_empty());
}

#[test]
fn restore_refuses_unreadable_start() {
    let mut db = Database::new();
    create_game(s("C"), s("D"), &mut db);
    update_game_start(s("C"), s("D"), s("not a date"), 600, &mut db);
    assert!(restore_context(&db, (T0, 0)).is_none());
}

#[test]
fn restore_from_parsed_starts() {
    let mut db = Database::new();
    create_game(s("C"), s("D"), &mut db);
    update_game_start(s("C"), s("D"), s("x"), 10, &mut db);
    let games = get_games(&db);
    let r = restore_from(&games, &vec![Some((100, 0))], (105, 0));
    assert_eq!(r.states, vec![BetState::Betting]);
    assert_eq!(r.timers[0].fire_at, (170, 0));
    let r = restore_from(&games, &vec![Some((100, 0))], (111, 0));
    assert_eq!(r.states, vec![BetState::WaitingResult]);
}

#[test]
fn apply_and_expire_restored() {
    let mut db = Database::new();
    create_game(s("C"), s("D"), &mut db);
    update_game_start(s("C"), s("D"), s("2020-01-01 00:00:00.000000000 UTC"), 600, &mut db);
    let r = restore_context(&db, (T0, 0)).unwrap();
    let mut games = GameData::new();
    let mut states = BetStateData::new();
    apply_restore(&mut games, &mut states, r);
    assert_eq!(games.slots.len(), 1);
    assert_eq!(states.states.get(&0), Some(&BetState::Betting));
    expire_restored_bets(&mut states, &mut db, 0, s("C"), s("D"));
    assert_eq!(states.states.get(&0), Some(&BetState::WaitingResult));
    assert_eq!(get_game(s("C"), s("D"), &db).unwrap().state, 2);
}

/// 2016-12-31 23:59:59 UTC, the second before a leap second
const LEAP: i64 = 1483228799;

#[test]
fn restore_start_in_a_leap_second() {
    let mut db = Database::new();
    create_game(s("C"), s("D"), &mut db);
    update_game_start(s("C"), s("D"), s("2016-12-31 23:59:60.500000000 UTC"), 10, &mut db);
    let open = restore_context(&db, (LEAP + 10, 400_000_000)).unwrap();
    assert_eq!(open.states, vec![BetState::Betting]);
    assert_eq!(open.timers[0].fire_at, (LEAP + 70, 500_000_000));
    let closed = restore_context(&db, (LEAP + 10, 600_000_000)).unwrap();
    assert_eq!(closed.states, vec![BetState::WaitingResult]);
}

#[test]
fn restore_from_leap_second_starts() {
    let mut db = Database::new();
    create_game(s("C"), s("D"), &mut db);
    update_game_start(s("C"), s("D"), s("x"), 10, &mut db);
    let games = get_games(&db);
    let r = restore_from(&games, &vec![Some((100, 1_500_000_000))], (110, 600_000_000));
    assert_eq!(r.states, vec![BetState::WaitingResult]);
    let r = restore_from(&games, &vec![Some((100, 1_500_000_000))], (110, 500_000_000));
    assert_eq!(r.states, vec![BetState::Betting]);
    assert_eq!(r.timers[0].fire_at, (170, 500_000_000));
    update_game_start(s("C"), s("D"), s("x"), -60, &mut db);
    let games = get_games(&db);
    let r = restore_from(&games, &vec![Some((100, 1_500_000_000))], (0, 0));
    assert_eq!(r.timers[0].fire_at, (100, 1_500_000_000));
}
