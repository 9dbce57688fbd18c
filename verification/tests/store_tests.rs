use fulgurobot::models::{Bets, Game, Users};
use fulgurobot::store::{
    add_bet, add_coq_to_user, boost_user, cancel_bet, create_bet, create_game, create_user, delete_game,
    get_bet, get_bets_color, get_coq_of_user, get_game, get_games, get_recharge_user, get_user,
    get_users_bet_color, remove_bets_of_game, trade_coq, update_bet, update_game_bet, update_game_start,
    update_game_state, update_recharge_user, user_exists, Database, DbError,
};

fn s(x: &str) -> String {
    x.to_string()
}

fn game_of(db: &Database, black: &str, white: &str) -> Game {
    get_game(s(black), s(white), db).unwrap()
}

#[test]
fn test_get_users_bet_color() {
    let mut conn = Database::new();

    create_user(0.to_string(), "Romain Fecher".to_string(), &mut conn);
    add_bet(0.to_string(), "gne".to_string(), "gne".to_string(), 42, "blanc".to_string(), &mut conn);

    let expected_users = vec![Users {
        id: 0.to_string(),
        name: "Romain Fecher".to_string(),
        nb_coq: 1000,
        nb_recharge: 5,
    }];

    assert_eq!(get_users_bet_color("gne".to_string(), "gne".to_string(), "blanc".to_string(), &conn).unwrap(), expected_users);
}

#[test]
fn new_user_gets_base_shells_and_refills() {
    let mut db = Database::new();
    assert!(!user_exists(s("1"), &db));
    create_user(s("1"), s("Alice"), &mut db);
    assert!(user_exists(s("1"), &db));
    let u = get_user(s("1"), &db).unwrap();
    assert_eq!(u.nb_coq, 1000);
    assert_eq!(u.nb_recharge, 5);
    assert_eq!(u.name, "Alice");
    assert_eq!(get_user(s("2"), &db), None);
}

#[test]
fn missing_user_has_minus_one_shell() {
    let db = Database::new();
    assert_eq!(get_coq_of_user(s("nobody"), &db), -1);
    assert_eq!(get_recharge_user(s("nobody"), &db), Err(DbError::NotFound));
}

#[test]
fn add_coq_changes_only_that_user() {
    let mut db = Database::new();
    create_user(s("a"), s("A"), &mut db);
    create_user(s("b"), s("B"), &mut db);
    add_coq_to_user(s("a"), -300, &mut db);
    assert_eq!(get_coq_of_user(s("a"), &db), 700);
    assert_eq!(get_coq_of_user(s("b"), &db), 1000);
    add_coq_to_user(s("ghost"), 10, &mut db);
    assert!(!user_exists(s("ghost"), &db));
}

#[test]
fn boost_gives_two_hundred() {
    let mut db = Database::new();
    create_user(s("a"), s("A"), &mut db);
    boost_user(s("a"), &mut db);
    assert_eq!(get_coq_of_user(s("a"), &db), 1200);
    assert_eq!(get_recharge_user(s("a"), &db), Ok(5));
}

#[test]
fn recharge_uses_one_refill() {
    let mut db = Database::new();
    create_user(s("a"), s("A"), &mut db);
    assert_eq!(update_recharge_user(s("a"), -1, &mut db), Ok(4));
    assert_eq!(get_coq_of_user(s("a"), &db), 1200);
    assert_eq!(get_recharge_user(s("a"), &db), Ok(4));
}

#[test]
fn recharge_refused_when_none_left() {
    let mut db = Database::new();
    create_user(s("a"), s("A"), &mut db);
    for left in (0..5).rev() {
        assert_eq!(update_recharge_user(s("a"), -1, &mut db), Ok(left));
    }
    assert_eq!(get_coq_of_user(s("a"), &db), 2000);
    assert_eq!(update_recharge_user(s("a"), -1, &mut db), Err(DbError::RollbackTransaction));
    assert_eq!(get_coq_of_user(s("a"), &db), 2000);
    assert_eq!(get_recharge_user(s("a"), &db), Ok(0));
}

#[test]
fn recharge_refuses_bad_modifier_and_missing_user() {
    let mut db = Database::new();
    create_user(s("a"), s("A"), &mut db);
    assert_eq!(update_recharge_user(s("a"), -2, &mut db), Err(DbError::RollbackTransaction));
    assert_eq!(get_recharge_user(s("a"), &db), Ok(5));
    assert_eq!(update_recharge_user(s("b"), -1, &mut db), Err(DbError::NotFound));
    assert_eq!(update_recharge_user(s("a"), 2, &mut db), Ok(7));
    assert_eq!(get_coq_of_user(s("a"), &db), 1200);
}

#[test]
fn trade_moves_shells_and_keeps_total() {
    let mut db = Database::new();
    create_user(s("a"), s("A"), &mut db);
    create_user(s("b"), s("B"), &mut db);
    assert_eq!(trade_coq(s("a"), s("b"), 400, &mut db), Ok(()));
    assert_eq!(get_coq_of_user(s("a"), &db), 600);
    assert_eq!(get_coq_of_user(s("b"), &db), 1400);
    assert_eq!(get_coq_of_user(s("a"), &db) + get_coq_of_user(s("b"), &db), 2000);
}

#[test]
fn trade_refused_when_giver_too_poor() {
    let mut db = Database::new();
    create_user(s("a"), s("A"), &mut db);
    create_user(s("b"), s("B"), &mut db);
    assert_eq!(trade_coq(s("a"), s("b"), 1001, &mut db), Err(DbError::RollbackTransaction));
    assert_eq!(get_coq_of_user(s("a"), &db), 1000);
    assert_eq!(get_coq_of_user(s("b"), &db), 1000);
    assert_eq!(trade_coq(s("a"), s("b"), 1000, &mut db), Ok(()));
    assert_eq!(get_coq_of_user(s("a"), &db), 0);
}

#[test]
fn new_game_has_no_bet() {
    let mut db = Database::new();
    create_game(s("B"), s("W"), &mut db);
    let g = game_of(&db, "B", "W");
    assert_eq!((g.black_bet, g.white_bet, g.state, g.start.as_str(), g.timeout), (0, 0, 0, "", 0));
    assert_eq!(get_game(s("W"), s("B"), &db), None);
    assert_eq!(get_games(&db).len(), 1);
}

#[test]
fn game_updates() {
    let mut db = Database::new();
    create_game(s("B"), s("W"), &mut db);
    update_game_bet(s("B"), s("W"), s("noir"), 30, &mut db);
    update_game_bet(s("B"), s("W"), s("blanc"), 40, &mut db);
    update_game_bet(s("B"), s("W"), s("vert"), 50, &mut db);
    update_game_state(s("B"), s("W"), 2, &mut db);
    update_game_start(s("B"), s("W"), s("2020-01-01 00:00:00.000000000 UTC"), 600, &mut db);
    let g = game_of(&db, "B", "W");
    assert_eq!((g.black_bet, g.white_bet, g.state, g.timeout), (30, 40, 2, 600));
    assert_eq!(g.start, "2020-01-01 00:00:00.000000000 UTC");
    delete_game(s("B"), s("W"), &mut db);
    assert_eq!(get_game(s("B"), s("W"), &db), None);
    assert!(get_games(&db).is_empty());
}

#[test]
fn create_bet_moves_stake_to_game() {
    let mut db = Database::new();
    create_user(s("u"), s("U"), &mut db);
    create_game(s("B"), s("W"), &mut db);
    create_bet(s("u"), s("B"), s("W"), 100, s("noir"), &mut db);
    assert_eq!(get_coq_of_user(s("u"), &db), 900);
    let g = game_of(&db, "B", "W");
    assert_eq!((g.black_bet, g.white_bet), (100, 0));
    let b = get_bet(s("u"), s("B"), s("W"), &db).unwrap();
    assert_eq!((b.bet, b.color.as_str()), (100, "noir"));
}

#[test]
fn create_bet_replaces_previous_bet() {
    let mut db = Database::new();
    create_user(s("u"), s("U"), &mut db);
    create_game(s("B"), s("W"), &mut db);
    create_bet(s("u"), s("B"), s("W"), 100, s("noir"), &mut db);
    create_bet(s("u"), s("B"), s("W"), 250, s("blanc"), &mut db);
    assert_eq!(get_coq_of_user(s("u"), &db), 750);
    let g = game_of(&db, "B", "W");
    assert_eq!((g.black_bet, g.white_bet), (0, 250));
    let b = get_bet(s("u"), s("B"), s("W"), &db).unwrap();
    assert_eq!((b.bet, b.color.as_str()), (250, "blanc"));
    // shells of the user plus the pool of the game stay 1000
    assert_eq!(get_coq_of_user(s("u"), &db) + g.black_bet + g.white_bet, 1000);
}

#[test]
fn update_bet_replaces_same_key_only() {
    let mut db = Database::new();
    add_bet(s("u"), s("B"), s("W"), 10, s("noir"), &mut db);
    update_bet(Bets { user_id: s("u"), black: s("B"), white: s("W"), bet: 20, color: s("blanc") }, &mut db);
    let b = get_bet(s("u"), s("B"), s("W"), &db).unwrap();
    assert_eq!((b.bet, b.color.as_str()), (20, "blanc"));
    update_bet(Bets { user_id: s("v"), black: s("B"), white: s("W"), bet: 30, color: s("noir") }, &mut db);
    assert_eq!(get_bet(s("v"), s("B"), s("W"), &db), None);
}

#[test]
fn cancel_gives_stakes_back() {
    let mut db = Database::new();
    create_user(s("u"), s("U"), &mut db);
    create_user(s("v"), s("V"), &mut db);
    create_game(s("B"), s("W"), &mut db);
    create_game(s("X"), s("Y"), &mut db);
    create_bet(s("u"), s("B"), s("W"), 100, s("noir"), &mut db);
    create_bet(s("v"), s("B"), s("W"), 50, s("blanc"), &mut db);
    create_bet(s("v"), s("X"), s("Y"), 20, s("blanc"), &mut db);
    cancel_bet(s("B"), s("W"), &mut db);
    assert_eq!(get_coq_of_user(s("u"), &db), 1000);
    assert_eq!(get_coq_of_user(s("v"), &db), 980);
    assert_eq!(get_bet(s("u"), s("B"), s("W"), &db), None);
    assert_eq!(get_bet(s("v"), s("B"), s("W"), &db), None);
    assert!(get_bet(s("v"), s("X"), s("Y"), &db).is_some());
    // totals of the cancelled game are left as they were
    let g = game_of(&db, "B", "W");
    assert_eq!((g.black_bet, g.white_bet), (100, 50));
}

#[test]
fn remove_bets_of_game_keeps_other_games() {
    let mut db = Database::new();
    add_bet(s("u"), s("B"), s("W"), 10, s("noir"), &mut db);
    add_bet(s("u"), s("X"), s("Y"), 10, s("noir"), &mut db);
    remove_bets_of_game(s("B"), s("W"), &mut db);
    assert_eq!(get_bet(s("u"), s("B"), s("W"), &db), None);
    assert!(get_bet(s("u"), s("X"), s("Y"), &db).is_some());
}

#[test]
fn bets_color_lists_lowest_highest_first() {
    let mut db = Database::new();
    for (i, b) in [50, 10, 40, 30, 20].iter().enumerate() {
        add_bet(i.to_string(), s("B"), s("W"), *b, s("noir"), &mut db);
    }
    add_bet(s("9"), s("B"), s("W"), 5, s("blanc"), &mut db);
    let bets: Vec<i32> = get_bets_color(s("B"), s("W"), s("noir"), 3, &db).iter().map(|b| b.bet).collect();
    assert_eq!(bets, vec![30, 20, 10]);
    let all: Vec<i32> = get_bets_color(s("B"), s("W"), s("noir"), -1, &db).iter().map(|b| b.bet).collect();
    assert_eq!(all, vec![50, 40, 30, 20, 10]);
    let ten: Vec<i32> = get_bets_color(s("B"), s("W"), s("noir"), 10, &db).iter().map(|b| b.bet).collect();
    assert_eq!(ten, vec![50, 40, 30, 20, 10]);
    assert!(get_bets_color(s("B"), s("W"), s("noir"), 0, &db).is_empty());
    assert_eq!(get_bets_color(s("B"), s("W"), s("blanc"), 10, &db).len(), 1);
}

#[test]
fn users_bet_color_only_winners() {
    let mut db = Database::new();
    create_user(s("u"), s("U"), &mut db);
    create_user(s("v"), s("V"), &mut db);
    create_game(s("B"), s("W"), &mut db);
    create_bet(s("u"), s("B"), s("W"), 100, s("noir"), &mut db);
    create_bet(s("v"), s("B"), s("W"), 50, s("blanc"), &mut db);
    let winners = get_users_bet_color(s("B"), s("W"), s("blanc"), &db).unwrap();
    assert_eq!(winners.len(), 1);
    assert_eq!(winners[0].id, "v");
}

#[test]
fn tables_with_duplicate_keys_are_refused() {
    let u = |id: &str| Users { id: s(id), name: s("n"), nb_coq: 1, nb_recharge: 1 };
    assert!(Database::from_tables(vec![u("a"), u("b")], vec![], vec![]).is_some());
    assert!(Database::from_tables(vec![u("a"), u("a")], vec![], vec![]).is_none());
    let db = Database::from_tables(vec![u("a")], vec![], vec![]).unwrap();
    assert_eq!(db.users().len(), 1);
    assert!(db.bets().is_empty());
    assert!(db.games().is_empty());
}

#[test]
fn totals_follow_the_bets_and_shells_are_kept() {
    let mut db = Database::new();
    create_user(s("u"), s("U"), &mut db);
    create_user(s("v"), s("V"), &mut db);
    create_game(s("B"), s("W"), &mut db);
    create_game(s("C"), s("D"), &mut db);
    create_bet(s("u"), s("B"), s("W"), 100, s("noir"), &mut db);
    create_bet(s("v"), s("B"), s("W"), 40, s("noir"), &mut db);
    create_bet(s("u"), s("C"), s("D"), 70, s("blanc"), &mut db);
    create_bet(s("u"), s("B"), s("W"), 30, s("blanc"), &mut db);
    let sum = |black: &str, color: &str| -> i32 {
        db.bets().iter().filter(|b| b.black == black && b.color == color).map(|b| b.bet).sum()
    };
    let g = game_of(&db, "B", "W");
    assert_eq!((g.black_bet, g.white_bet), (40, 30));
    assert_eq!((sum("B", "noir"), sum("B", "blanc")), (40, 30));
    let staked: i32 = db.bets().iter().map(|b| b.bet).sum();
    let held: i32 = db.users().iter().map(|u| u.nb_coq).sum();
    assert_eq!(staked + held, 2000);
    // u: 1000 - 70 - 30 left, 100 staked
    assert_eq!(get_coq_of_user(s("u"), &db), 900);
}
