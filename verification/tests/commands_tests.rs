use fulgurobot::commands::{
    bet_on_color, bet_request, end_bets, expire_bets, free_game_slot, game_status, give, give_request,
    register_game, result_plan, result_request, settle_result, start_bets, start_bets_args, BetError,
    GiveOutcome, ResultError, StartOutcome, StatusOutcome,
};
use fulgurobot::state::{BetState, BetStateData, GameData};
use fulgurobot::store::{
    create_bet, create_game, create_user, get_bet, get_coq_of_user, get_game, Database,
};

fn s(x: &str) -> String {
    x.to_string()
}

/// A bot with one announced game `B` vs `W` under id 0, betting state `state`.
fn bot_with_game(state: BetState) -> (GameData, BetStateData, Database) {
    let mut games = GameData::new();
    let mut states = BetStateData::new();
    let mut db = Database::new();
    create_game(s("B"), s("W"), &mut db);
    let index = free_game_slot(&games);
    assert_eq!(index, 0);
    register_game(&mut games, &mut states, index, s("B"), s("W"), 77);
    if state != BetState::NotBetting {
        states.states.insert(0, state);
    }
    (games, states, db)
}

#[test]
fn register_reuses_first_free_slot() {
    let (mut games, mut states, _db) = bot_with_game(BetState::NotBetting);
    assert_eq!(free_game_slot(&games), 1);
    register_game(&mut games, &mut states, 1, s("C"), s("D"), 78);
    games.slots[0] = None;
    assert_eq!(free_game_slot(&games), 0);
    register_game(&mut games, &mut states, 0, s("E"), s("F"), 79);
    assert_eq!(games.slots.len(), 2);
    assert_eq!(games.slots[0].as_ref().unwrap().black, "E");
    assert_eq!(games.slots[0].as_ref().unwrap().pin, Some(79));
    assert_eq!(states.states.get(&0), Some(&BetState::NotBetting));
}

#[test]
fn bet_request_errors() {
    let (_games, states, _db) = bot_with_game(BetState::NotBetting);
    assert_eq!(bet_request(&states, None, Some(10)), Err(BetError::Usage));
    assert_eq!(bet_request(&states, Some(0), None), Err(BetError::Usage));
    assert_eq!(bet_request(&states, Some(0), Some(0)), Err(BetError::NotPositive));
    assert_eq!(bet_request(&states, Some(0), Some(10)), Err(BetError::NotStarted));
    // an unknown id passes this check and fails later
    assert_eq!(bet_request(&states, Some(5), Some(10)), Ok((5, 10)));
    let (_g, closed, _d) = bot_with_game(BetState::WaitingResult);
    assert_eq!(bet_request(&closed, Some(0), Some(10)), Err(BetError::Finished));
    let (_g, open, _d) = bot_with_game(BetState::Betting);
    assert_eq!(bet_request(&open, Some(0), Some(10)), Ok((0, 10)));
}

#[test]
fn bet_on_color_places_or_refuses() {
    let (games, _states, mut db) = bot_with_game(BetState::Betting);
    create_user(s("u"), s("U"), &mut db);
    assert_eq!(bet_on_color(&games, &mut db, s("u"), s("noir"), 3, 10), Err(BetError::NoSuchGame));
    assert_eq!(bet_on_color(&games, &mut db, s("u"), s("noir"), 0, 1001), Err(BetError::NotEnoughCoq));
    assert_eq!(bet_on_color(&games, &mut db, s("u"), s("noir"), 0, 600), Ok(()));
    assert_eq!(get_coq_of_user(s("u"), &db), 400);
    // the stake already on the game counts: 400 + 600 are available
    assert_eq!(bet_on_color(&games, &mut db, s("u"), s("blanc"), 0, 1000), Ok(()));
    assert_eq!(get_coq_of_user(s("u"), &db), 0);
    let g = get_game(s("B"), s("W"), &db).unwrap();
    assert_eq!((g.black_bet, g.white_bet), (0, 1000));
}

#[test]
fn start_bets_args_reads_timeout() {
    assert_eq!(start_bets_args(Some(2), None, None), Some((2, None)));
    assert_eq!(start_bets_args(Some(2), Some(s("timeout")), Some(5)), Some((2, Some(5))));
    assert_eq!(start_bets_args(Some(2), Some(s("timeout")), None), None);
    assert_eq!(start_bets_args(Some(2), Some(s("other")), None), Some((2, None)));
    assert_eq!(start_bets_args(None, None, None), None);
}

#[test]
fn start_bets_outcomes() {
    let (mut games, mut states, mut db) = bot_with_game(BetState::NotBetting);
    assert_eq!(start_bets(&games, &mut states, &mut db, 0), StartOutcome::Opened);
    assert_eq!(states.states.get(&0), Some(&BetState::Betting));
    assert_eq!(get_game(s("B"), s("W"), &db).unwrap().state, 1);
    assert_eq!(start_bets(&games, &mut states, &mut db, 0), StartOutcome::AlreadyBetting);
    expire_bets(&mut states, 0);
    assert_eq!(states.states.get(&0), Some(&BetState::WaitingResult));
    assert_eq!(start_bets(&games, &mut states, &mut db, 0), StartOutcome::AwaitingResult);
    games.slots[0] = None;
    assert_eq!(start_bets(&games, &mut states, &mut db, 0), StartOutcome::BadId);
}

#[test]
fn end_bets_closes_and_reports_totals() {
    let (games, mut states, mut db) = bot_with_game(BetState::Betting);
    create_user(s("u"), s("U"), &mut db);
    create_bet(s("u"), s("B"), s("W"), 70, s("noir"), &mut db);
    let g = end_bets(&games, &mut states, &mut db, 0);
    assert_eq!((g.black_bet, g.white_bet, g.state), (70, 0, 2));
    assert_eq!(states.states.get(&0), Some(&BetState::WaitingResult));
}

#[test]
fn result_request_errors() {
    let (games, states, _db) = bot_with_game(BetState::Betting);
    assert_eq!(result_request(&games, &states, Some(0), &Some(s("vert"))), Err(ResultError::UsageColor));
    assert_eq!(result_request(&games, &states, Some(0), &None), Err(ResultError::UsageColor));
    assert_eq!(result_request(&games, &states, None, &Some(s("noir"))), Err(ResultError::Usage));
    assert_eq!(result_request(&games, &states, Some(4), &Some(s("noir"))), Err(ResultError::BadId));
    assert_eq!(result_request(&games, &states, Some(0), &Some(s("noir"))), Err(ResultError::NotStarted));
    let (games, states, _db) = bot_with_game(BetState::WaitingResult);
    assert_eq!(result_request(&games, &states, Some(0), &Some(s("blanc"))), Ok(0));
    let (games, mut states, _db) = bot_with_game(BetState::Betting);
    states.states.remove(&0);
    assert_eq!(result_request(&games, &states, Some(0), &Some(s("vert"))), Err(ResultError::UsageColor));
}

#[test]
fn result_plan_and_settle() {
    let (mut games, mut states, mut db) = bot_with_game(BetState::WaitingResult);
    create_user(s("u"), s("U"), &mut db);
    create_user(s("v"), s("V"), &mut db);
    create_user(s("w"), s("W"), &mut db);
    create_bet(s("u"), s("B"), s("W"), 100, s("noir"), &mut db);
    create_bet(s("v"), s("B"), s("W"), 300, s("noir"), &mut db);
    create_bet(s("w"), s("B"), s("W"), 200, s("blanc"), &mut db);
    let plan = result_plan(&games, &db, 0, s("noir"));
    assert_eq!(plan.winners, vec![(s("u"), 100), (s("v"), 300)]);
    assert_eq!(plan.total_color, 400);
    assert_eq!(plan.total, 600);
    let out = settle_result(&mut games, &mut states, &mut db, 0, vec![(s("u"), 150), (s("v"), 450)]);
    assert_eq!(out.pin, Some(77));
    assert!(!out.games_left);
    assert_eq!(get_coq_of_user(s("u"), &db), 1050);
    assert_eq!(get_coq_of_user(s("v"), &db), 1150);
    assert_eq!(get_coq_of_user(s("w"), &db), 800);
    assert_eq!(get_game(s("B"), s("W"), &db), None);
    assert_eq!(get_bet(s("u"), s("B"), s("W"), &db), None);
    assert!(games.slots[0].is_none());
    assert_eq!(states.states.get(&0), None);
}

#[test]
fn game_status_outcomes() {
    let (games, states, mut db) = bot_with_game(BetState::Betting);
    create_user(s("u"), s("Ursula"), &mut db);
    create_user(s("v"), s("Victor"), &mut db);
    create_bet(s("u"), s("B"), s("W"), 100, s("noir"), &mut db);
    create_bet(s("v"), s("B"), s("W"), 300, s("noir"), &mut db);
    assert!(matches!(game_status(&games, &states, &db, None), StatusOutcome::Usage));
    assert!(matches!(game_status(&games, &states, &db, Some(9)), StatusOutcome::UnknownId));
    match game_status(&games, &states, &db, Some(0)) {
        StatusOutcome::Status(st) => {
            assert_eq!(st.state, BetState::Betting);
            assert_eq!((st.game.black_bet, st.game.white_bet), (400, 0));
            let lines: Vec<(String, i32)> = st.black_names.iter().cloned().zip(st.black_bets.iter().map(|b| b.bet)).collect();
            assert_eq!(lines, vec![(s("Victor"), 300), (s("Ursula"), 100)]);
            assert!(st.white_bets.is_empty());
        },
        _ => panic!("expected a status"),
    }
    let (g2, st2, db2) = bot_with_game(BetState::NotBetting);
    assert!(matches!(game_status(&g2, &st2, &db2, Some(0)), StatusOutcome::NotStarted));
    let (mut g3, st3, db3) = bot_with_game(BetState::WaitingResult);
    g3.slots[0] = None;
    assert!(matches!(game_status(&g3, &st3, &db3, Some(0)), StatusOutcome::NoGame(BetState::WaitingResult)));
}

#[test]
fn give_request_checks() {
    assert_eq!(give_request(true, Some(10)), Ok(10));
    assert_eq!(give_request(false, Some(10)), Err(GiveOutcome::Usage));
    assert_eq!(give_request(true, None), Err(GiveOutcome::Usage));
    assert_eq!(give_request(true, Some(0)), Err(GiveOutcome::Usage));
    assert_eq!(give_request(true, Some(2000)), Ok(2000));
    assert_eq!(give_request(true, Some(2001)), Err(GiveOutcome::TooMuch));
}

#[test]
fn give_outcomes() {
    let mut db = Database::new();
    create_user(s("a"), s("A"), &mut db);
    assert_eq!(give(s("a"), s("b"), 10, &mut db), GiveOutcome::UnknownTarget);
    create_user(s("b"), s("B"), &mut db);
    assert_eq!(give(s("a"), s("b"), 1500, &mut db), GiveOutcome::TradeFailed);
    assert_eq!(give(s("a"), s("b"), 250, &mut db), GiveOutcome::Given);
    assert_eq!(get_coq_of_user(s("a"), &db), 750);
    assert_eq!(get_coq_of_user(s("b"), &db), 1250);
}
