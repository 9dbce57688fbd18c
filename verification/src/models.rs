//! Rows of the three tables of the betting database.

use vstd::prelude::*;

verus! {

/// A user of the bot, keyed by its Discord id.
#[derive(Debug, PartialEq, Eq)]
pub struct Users {
    pub id: String,
    pub name: String,
    pub nb_coq: i32,
    pub nb_recharge: i32,
}

/// Mathematical form of a user row.
pub struct UserView {
    pub id: Seq<char>,
    pub name: Seq<char>,
    pub nb_coq: i32,
    pub nb_recharge: i32,
}

impl View for Users {
    type V = UserView;

    open spec fn view(&self) -> UserView {
        UserView { id: self.id@, name: self.name@, nb_coq: self.nb_coq, nb_recharge: self.nb_recharge }
    }
}

impl Clone for Users {
    fn clone(&self) -> (r: Self)
        ensures
            r@ == self@,
    {
        Users {
            id: self.id.clone(),
            name: self.name.clone(),
            nb_coq: self.nb_coq,
            nb_recharge: self.nb_recharge,
        }
    }
}

/// A bet of one user on one game, keyed by `(user_id, black, white)`.
/// `color` is `"noir"` or `"blanc"` for the bets the bot places.
#[derive(Debug, PartialEq, Eq)]
pub struct Bets {
    pub user_id: String,
    pub black: String,
    pub white: String,
    pub bet: i32,
    pub color: String,
}

/// Mathematical form of a bet row.
pub struct BetView {
    pub user_id: Seq<char>,
    pub black: Seq<char>,
    pub white: Seq<char>,
    pub bet: i32,
    pub color: Seq<char>,
}

impl View for Bets {
    type V = BetView;

    open spec fn view(&self) -> BetView {
        BetView {
            user_id: self.user_id@,
            black: self.black@,
            white: self.white@,
            bet: self.bet,
            color: self.color@,
        }
    }
}

impl Clone for Bets {
    fn clone(&self) -> (r: Self)
        ensures
            r@ == self@,
    {
        Bets {
            user_id: self.user_id.clone(),
            black: self.black.clone(),
            white: self.white.clone(),
            bet: self.bet,
            color: self.color.clone(),
        }
    }
}

/// A game between two players, keyed by `(black, white)`, with the total
/// of the bets placed on each colour, its betting state, and when its
/// betting window started (`start`, empty when unknown) and how many
/// seconds it stays open (`timeout`).
#[derive(Debug, PartialEq, Eq)]
pub struct Game {
    pub black: String,
    pub white: String,
    pub black_bet: i32,
    pub white_bet: i32,
    pub state: i32,
    pub start: String,
    pub timeout: i32,
}

/// Mathematical form of a game row.
pub struct GameView {
    pub black: Seq<char>,
    pub white: Seq<char>,
    pub black_bet: i32,
    pub white_bet: i32,
    pub state: i32,
    pub start: Seq<char>,
    pub timeout: i32,
}

impl View for Game {
    type V = GameView;

    open spec fn view(&self) -> GameView {
        GameView {
            black: self.black@,
            white: self.white@,
            black_bet: self.black_bet,
            white_bet: self.white_bet,
            state: self.state,
            start: self.start@,
            timeout: self.timeout,
        }
    }
}

impl Clone for Game {
    fn clone(&self) -> (r: Self)
        ensures
            r@ == self@,
    {
        Game {
            black: self.black.clone(),
            white: self.white.clone(),
            black_bet: self.black_bet,
            white_bet: self.white_bet,
            state: self.state,
            start: self.start.clone(),
            timeout: self.timeout,
        }
    }
}

} // verus!
